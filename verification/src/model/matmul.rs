//! Products of a weight tensor with activation vectors, whose numbers are given by
//! their bits.

use vstd::prelude::*;
use vstd::slice::slice_subrange;

use crate::calc::{
    block_value, computes, fold2, lemma_accumulated_is_fold, make, make_block_value,
    make_multiply_add, make_value, math, multiply_add, sum, value, Calc, Math, SMALLEST_QUANT,
};
use crate::error::{GgufError, Result};
use crate::model::weights::{
    count_rows, is_row_fault, last_named, missing_tensor, row_ok, rows_are_ok, rows_countable,
    tensor_name, token_major, WeightMap,
};
use crate::parallel::map_range;
use crate::quant::block::{accumulate, block_count, blocks_of, Element};
use crate::quant::order::{
    chained, is_group_sum, is_lanes_dot, is_visited_sum, picked, quarter_steps, visited, Order,
};
use crate::quant::q5_k::{block_dot_of, BlockDot};
use crate::quant::q8_0::{block_part, block_quants, deltas};
use crate::quant::q8_k::{
    block_of, block_quantized, group_sum, peak, quantize_row_q8_k, stored, Q8KRow,
};
use crate::quant::{
    accumulate_row, dequant_row, dot_row, dot_row_q5k_q8k, elements_of, is_row_dot,
    law_decoded_row_holds_the_values, q8_0, row_computable,
};
use crate::single::{ONE, ZERO};
use crate::types::{GgmlType, TensorInfo, TensorView};

verus! {

/// Whether the places of the rows of a tensor can be computed, and a vector of
/// `n` elements can be multiplied with them.
pub open spec fn multipliable(t: TensorView, n: nat) -> bool {
    &&& rows_countable(t)
    &&& forall|row: nat| row < t.row_count() ==> #[trigger] t.row_computable(row)
    &&& t.n_dims > 0 ==> t.row_len() == n
    &&& blocks_of(n, 256) * 256 <= usize::MAX
}

/// Whether the place of a row can be computed, and a vector of `n` elements can be
/// multiplied with it.
pub open spec fn row_multipliable(t: TensorView, row: nat, n: nat) -> bool {
    &&& t.row_computable(row)
    &&& t.n_dims > 0 ==> t.row_len() == n
    &&& blocks_of(n, 256) * 256 <= usize::MAX
}

// ── A row with a vector ─────────────────────────────────────────────────────

/// Taking products of a quantized value and a number into a sum.
pub open spec fn quant_products(m: Math) -> spec_fn(u32, i32, u32) -> u32 {
    |acc: u32, q: i32, x: u32| multiply_add(m, acc, m(Calc::OfInt(q)), x)
}

/// Taking the sums of blocks, each with its scale, into a sum.
pub open spec fn scaled_sums(m: Math) -> spec_fn(u32, u16, u32) -> u32 {
    |acc: u32, d: u16, sum: u32| multiply_add(m, acc, m(Calc::OfHalf(d)), sum)
}

/// Taking products of an element of a row and a number into a sum.
pub open spec fn element_products(m: Math) -> spec_fn(u32, Element, u32) -> u32 {
    |acc: u32, e: Element, x: u32| multiply_add(m, acc, value(m, e), x)
}

/// Taking what the blocks of a row and of a quantized vector have for a product
/// into a sum.
pub open spec fn block_products(m: Math) -> spec_fn(u32, BlockDot, u32) -> u32 {
    |acc: u32, dot: BlockDot, dx: u32| m(Calc::Add(acc, block_value(m, dot, dx)))
}

/// The sums within the blocks of a Q8_0 row, with a vector.
pub open spec fn block_sums(m: Math, bytes: Seq<u8>, x: Seq<u32>) -> Seq<u32> {
    Seq::new(
        blocks_of(x.len(), 32),
        |b: int|
            fold2(quant_products(m), ZERO, block_quants(bytes, x.len(), b), block_part(x, b)),
    )
}

/// The sum of the pairs that the first steps of an order visit.
pub open spec fn visited_sum(
    m: Math,
    order: Order,
    steps: int,
    values: Seq<Element>,
    x: Seq<u32>,
) -> u32 {
    let places = visited(order, x.len() as int, steps);
    fold2(element_products(m), ZERO, picked(values, places), picked(x, places))
}

/// The sums of the lanes of a group of 64 values.
pub open spec fn lane_sums(m: Math, values: Seq<Element>, x: Seq<u32>, group: int) -> Seq<u32> {
    Seq::new(8, |l: int| visited_sum(m, Order::Lane(group, l), 8, values, x))
}

/// The sums of the groups of 64 values.
pub open spec fn group_sums(m: Math, values: Seq<Element>, x: Seq<u32>) -> Seq<u32> {
    Seq::new(blocks_of(x.len(), 64), |g: int| sum(m, lane_sums(m, values, x, g)))
}

/// The product of a row with a vector: for Q8_0 the sum within each block, and then the
/// blocks, each with its scale; for Q4_K and Q5_K groups of lanes; for Q6_K by quarters;
/// for every other type value by value.
pub open spec fn row_dot(m: Math, ty: GgmlType, bytes: Seq<u8>, x: Seq<u32>) -> u32 {
    let values = elements_of(ty, bytes, x.len());
    match ty {
        GgmlType::Q8_0 => fold2(
            scaled_sums(m),
            ZERO,
            deltas(bytes, x.len()),
            block_sums(m, bytes, x),
        ),
        GgmlType::Q4_K | GgmlType::Q5_K => sum(m, group_sums(m, values, x)),
        GgmlType::Q6_K => visited_sum(m, Order::Quarters, quarter_steps(x.len()), values, x),
        _ => fold2(element_products(m), ZERO, values, x),
    }
}

/// The inverse of the scale of a block with the peak `p`.
pub open spec fn inverse_scale(m: Math, p: u32) -> u32 {
    m(Calc::Div(SMALLEST_QUANT, p))
}

/// The scales of the blocks of a quantized vector.
pub open spec fn vector_scales(m: Math, x: Seq<u32>) -> Seq<u32> {
    Seq::new(
        blocks_of(x.len(), 256),
        |b: int|
            match peak(block_of(x, b)) {
                None => ZERO,
                Some(p) => m(Calc::Div(ONE, inverse_scale(m, p))),
            },
    )
}

/// The values of a quantized vector, with zeros up to the end of the last block.
pub open spec fn vector_quants(m: Math, x: Seq<u32>) -> Seq<i8> {
    Seq::new(
        256 * blocks_of(x.len(), 256),
        |i: int|
            if i < x.len() {
                match peak(block_of(x, i / 256)) {
                    None => 0i8,
                    Some(p) => stored(m(Calc::Round(m(Calc::Mul(inverse_scale(m, p), x[i])))) as i32),
                }
            } else {
                0i8
            },
    )
}

/// The sums of the groups of 16 values of a quantized vector.
pub open spec fn vector_sums(m: Math, x: Seq<u32>) -> Seq<i16> {
    Seq::new(
        16 * blocks_of(x.len(), 256),
        |g: int| group_sum(vector_quants(m, x), 16 * g, 16) as i16,
    )
}

/// The product of a Q5_K row with a vector that is quantized first.
pub open spec fn quantized_dot(m: Math, bytes: Seq<u8>, x: Seq<u32>) -> u32 {
    fold2(
        block_products(m),
        ZERO,
        Seq::new(
            blocks_of(x.len(), 256),
            |b: int| block_dot_of(bytes, vector_quants(m, x), vector_sums(m, x), b),
        ),
        vector_scales(m, x),
    )
}

/// The product of a row of a tensor with a vector. Where `quantizing`, the vector
/// is quantized first for rows of type Q5_K.
pub open spec fn entry(
    m: Math,
    t: TensorView,
    data: Seq<u8>,
    row: nat,
    x: Seq<u32>,
    quantizing: bool,
) -> u32 {
    let bytes = data.skip(t.row_offset(row) as int);
    if quantizing && t.ggml_type == GgmlType::Q5_K {
        quantized_dot(m, bytes, x)
    } else {
        row_dot(m, t.ggml_type, bytes, x)
    }
}

/// The product of the first rows of a tensor with a vector, over the first elements of
/// `before`.
pub open spec fn product(
    m: Math,
    t: TensorView,
    rows: nat,
    data: Seq<u8>,
    x: Seq<u32>,
    quantizing: bool,
    before: Seq<u32>,
) -> Seq<u32> {
    Seq::new(
        before.len(),
        |i: int|
            if i < rows {
                entry(m, t, data, i as nat, x, quantizing)
            } else {
                before[i]
            },
    )
}

proof fn lemma_chained<P: Fn(u32, u32) -> u32>(m: Math, plus: P, parts: Seq<u32>, total: u32)
    requires
        chained(plus, ZERO, parts, total),
        forall|a: u32, b: u32, r: u32| #[trigger]
            plus.ensures((a, b), r) ==> r == m(Calc::Add(a, b)),
    ensures
        total == sum(m, parts),
    decreases parts.len(),
{
    if parts.len() > 0 {
        let before = choose|before: u32|
            chained(plus, ZERO, parts.drop_last(), before) && #[trigger] plus.ensures(
                (before, parts.last()),
                total,
            );
        lemma_chained(m, plus, parts.drop_last(), before);
    }
}

proof fn lemma_group_sum<E: Fn(u32, Element, u32) -> u32, P: Fn(u32, u32) -> u32>(
    m: Math,
    take_in: E,
    plus: P,
    values: Seq<Element>,
    x: Seq<u32>,
    group: int,
    v: u32,
)
    requires
        is_group_sum(take_in, plus, ZERO, values, x, group, v),
        forall|a: u32, e: Element, y: u32, r: u32| #[trigger]
            take_in.ensures((a, e, y), r) ==> r == element_products(m)(a, e, y),
        forall|a: u32, b: u32, r: u32| #[trigger]
            plus.ensures((a, b), r) ==> r == m(Calc::Add(a, b)),
    ensures
        v == sum(m, lane_sums(m, values, x, group)),
{
    let lanes = choose|lanes: Seq<u32>|
        {
            &&& lanes.len() == 8
            &&& forall|l: int|
                0 <= l < 8 ==> is_visited_sum(
                    Order::Lane(group, l),
                    8,
                    take_in,
                    ZERO,
                    values,
                    x,
                    #[trigger] lanes[l],
                )
            &&& #[trigger] chained(plus, ZERO, lanes, v)
        };
    assert forall|l: int| 0 <= l < 8 implies #[trigger] lanes[l] == lane_sums(
        m,
        values,
        x,
        group,
    )[l] by {
        let places = visited(Order::Lane(group, l), x.len() as int, 8);
        lemma_accumulated_is_fold(
            take_in,
            element_products(m),
            ZERO,
            picked(values, places),
            picked(x, places),
            lanes[l],
        );
    }
    assert(lanes =~= lane_sums(m, values, x, group));
    lemma_chained(m, plus, lanes, v);
}

proof fn lemma_lanes_dot<E: Fn(u32, Element, u32) -> u32, P: Fn(u32, u32) -> u32>(
    m: Math,
    take_in: E,
    plus: P,
    values: Seq<Element>,
    x: Seq<u32>,
    total: u32,
)
    requires
        is_lanes_dot(take_in, plus, ZERO, values, x, total),
        forall|a: u32, e: Element, y: u32, r: u32| #[trigger]
            take_in.ensures((a, e, y), r) ==> r == element_products(m)(a, e, y),
        forall|a: u32, b: u32, r: u32| #[trigger]
            plus.ensures((a, b), r) ==> r == m(Calc::Add(a, b)),
    ensures
        total == sum(m, group_sums(m, values, x)),
{
    let groups = choose|groups: Seq<u32>|
        {
            &&& groups.len() == blocks_of(x.len(), 64)
            &&& forall|g: int|
                0 <= g < groups.len() ==> is_group_sum(
                    take_in,
                    plus,
                    ZERO,
                    values,
                    x,
                    g,
                    #[trigger] groups[g],
                )
            &&& #[trigger] chained(plus, ZERO, groups, total)
        };
    assert forall|g: int| 0 <= g < groups.len() implies #[trigger] groups[g] == group_sums(
        m,
        values,
        x,
    )[g] by {
        lemma_group_sum(m, take_in, plus, values, x, g, groups[g]);
    }
    assert(groups =~= group_sums(m, values, x));
    lemma_chained(m, plus, groups, total);
}

proof fn lemma_row_dot<
    W: Fn(u32, i32, u32) -> u32,
    S: Fn(u32, u16, u32) -> u32,
    E: Fn(u32, Element, u32) -> u32,
    P: Fn(u32, u32) -> u32,
>(
    m: Math,
    ty: GgmlType,
    bytes: Seq<u8>,
    x: Seq<u32>,
    within: W,
    scaled: S,
    take_in: E,
    plus: P,
    total: u32,
)
    requires
        is_row_dot(ty, bytes, x, ZERO, within, scaled, take_in, plus, total),
        forall|a: u32, q: i32, y: u32, r: u32| #[trigger]
            within.ensures((a, q, y), r) ==> r == quant_products(m)(a, q, y),
        forall|a: u32, d: u16, y: u32, r: u32| #[trigger]
            scaled.ensures((a, d, y), r) ==> r == scaled_sums(m)(a, d, y),
        forall|a: u32, e: Element, y: u32, r: u32| #[trigger]
            take_in.ensures((a, e, y), r) ==> r == element_products(m)(a, e, y),
        forall|a: u32, b: u32, r: u32| #[trigger]
            plus.ensures((a, b), r) ==> r == m(Calc::Add(a, b)),
    ensures
        total == row_dot(m, ty, bytes, x),
{
    if ty == GgmlType::Q8_0 {
        let sums = choose|sums: Seq<u32>|
            {
                &&& sums.len() == blocks_of(x.len(), 32)
                &&& q8_0::are_block_sums(bytes, x, ZERO, within, sums)
                &&& #[trigger] crate::quant::block::accumulated(
                    scaled,
                    ZERO,
                    deltas(bytes, x.len()),
                    sums,
                    total,
                )
            };
        assert forall|b: int| 0 <= b < sums.len() implies #[trigger] sums[b] == block_sums(
            m,
            bytes,
            x,
        )[b] by {
            lemma_accumulated_is_fold(
                within,
                quant_products(m),
                ZERO,
                block_quants(bytes, x.len(), b),
                block_part(x, b),
                sums[b],
            );
        }
        assert(sums =~= block_sums(m, bytes, x));
        lemma_accumulated_is_fold(
            scaled,
            scaled_sums(m),
            ZERO,
            deltas(bytes, x.len()),
            sums,
            total,
        );
    } else if ty == GgmlType::Q4_K || ty == GgmlType::Q5_K {
        lemma_lanes_dot(m, take_in, plus, elements_of(ty, bytes, x.len()), x, total);
    } else if ty == GgmlType::Q6_K {
        let places = visited(Order::Quarters, x.len() as int, quarter_steps(x.len()));
        lemma_accumulated_is_fold(
            take_in,
            element_products(m),
            ZERO,
            picked(elements_of(ty, bytes, x.len()), places),
            picked(x, places),
            total,
        );
    } else {
        lemma_accumulated_is_fold(
            take_in,
            element_products(m),
            ZERO,
            elements_of(ty, bytes, x.len()),
            x,
            total,
        );
    }
}

/// The product of one row with a vector.
fn row_product<F: Fn(Calc) -> u32>(
    tensor: &TensorInfo,
    data: &[u8],
    row: usize,
    x: &[u32],
    calc: &F,
) -> (r: Result<u32>)
    requires
        computes(*calc),
        row_multipliable(tensor@, row as nat, x@.len()),
    ensures
        match r {
            Ok(v) => {
                &&& row_ok(tensor@, data@.len(), row as nat)
                &&& v == entry(math(*calc), tensor@, data@, row as nat, x@, false)
            },
            Err(e) => {
                &&& !row_ok(tensor@, data@.len(), row as nat)
                &&& is_row_fault(tensor@, data@.len(), row as nat, e)
            },
        },
{
    let ghost m = math(*calc);
    let within = |acc: u32, q: i32, y: u32| -> (r: u32)
        ensures
            r == quant_products(math(*calc))(acc, q, y),
        {
            let v: u32 = make(calc, Calc::OfInt(q));
            make_multiply_add(calc, acc, v, y)
        };
    let scaled = |acc: u32, d: u16, y: u32| -> (r: u32)
        ensures
            r == scaled_sums(math(*calc))(acc, d, y),
        {
            let v: u32 = make(calc, Calc::OfHalf(d));
            make_multiply_add(calc, acc, v, y)
        };
    let take_in = |acc: u32, e: Element, y: u32| -> (r: u32)
        ensures
            r == element_products(math(*calc))(acc, e, y),
        {
            let v: u32 = make_value(calc, e);
            make_multiply_add(calc, acc, v, y)
        };
    let plus = |a: u32, b: u32| -> (r: u32)
        ensures
            r == math(*calc)(Calc::Add(a, b)),
        { make(calc, Calc::Add(a, b)) };
    proof {
        assert(tensor@.row_computable(row as nat));
    }
    let total = dot_row(tensor, data, row, x, ZERO, &within, &scaled, &take_in, &plus)?;
    proof {
        lemma_row_dot(
            m,
            tensor.ggml_type,
            data@.skip(tensor@.row_offset(row as nat) as int),
            x@,
            within,
            scaled,
            take_in,
            plus,
            total,
        );
    }
    Ok(total)
}

/// Whether a row is the quantized form of a vector.
spec fn holds_quantized(m: Math, x: Seq<u32>, q: Q8KRow) -> bool {
    &&& q.shaped()
    &&& q.n == x.len()
    &&& q.d@ == vector_scales(m, x)
    &&& q.qs@ == vector_quants(m, x)
    &&& q.bsums@ == vector_sums(m, x)
}

/// Quantizes a vector.
fn quantize<F: Fn(Calc) -> u32>(x: &[u32], calc: &F) -> (q: Q8KRow)
    requires
        computes(*calc),
        blocks_of(x@.len(), 256) * 256 <= usize::MAX,
    ensures
        holds_quantized(math(*calc), x@, q),
{
    let ghost m = math(*calc);
    let invert = |p: u32| -> (r: u32)
        ensures
            r == inverse_scale(math(*calc), p),
        { make(calc, Calc::Div(SMALLEST_QUANT, p)) };
    let round = |s: u32, v: u32| -> (r: i32)
        ensures
            r == math(*calc)(Calc::Round(math(*calc)(Calc::Mul(s, v)))) as i32,
        {
            let p: u32 = make(calc, Calc::Mul(s, v));
            make(calc, Calc::Round(p)) as i32
        };
    let reciprocal = |s: u32| -> (r: u32)
        ensures
            r == math(*calc)(Calc::Div(ONE, s)),
        { make(calc, Calc::Div(ONE, s)) };
    let q = quantize_row_q8_k(x, invert, round, reciprocal);
    proof {
        let xs = x@;
        assert forall|b: int| 0 <= b < q.d@.len() implies #[trigger] q.d@[b] == vector_scales(
            m,
            xs,
        )[b] by {
            assert(block_quantized(xs, b, q.d@[b], q.qs@, invert, round, reciprocal));
        }
        assert(q.d@ =~= vector_scales(m, xs));
        assert forall|i: int| 0 <= i < q.qs@.len() implies #[trigger] q.qs@[i] == vector_quants(
            m,
            xs,
        )[i] by {
            if i < xs.len() {
                let b = i / 256;
                let block = block_of(xs, b);
                assert(block_quantized(xs, b, q.d@[b], q.qs@, invert, round, reciprocal));
                assert(0 <= i - 256 * b < block.len());
                assert(q.qs@[256 * b + (i - 256 * b)] == q.qs@[i]);
                assert(block[i - 256 * b] == xs[i]);
            }
        }
        assert(q.qs@ =~= vector_quants(m, xs));
        assert(q.bsums@ =~= vector_sums(m, xs));
    }
    q
}

/// The product of one Q5_K row with a quantized vector.
fn quantized_row_product<F: Fn(Calc) -> u32>(
    tensor: &TensorInfo,
    data: &[u8],
    row: usize,
    q8k: &Q8KRow,
    Ghost(x): Ghost<Seq<u32>>,
    calc: &F,
) -> (r: Result<u32>)
    requires
        computes(*calc),
        row_multipliable(tensor@, row as nat, x.len()),
        tensor@.ggml_type == GgmlType::Q5_K,
        holds_quantized(math(*calc), x, *q8k),
    ensures
        match r {
            Ok(v) => {
                &&& row_ok(tensor@, data@.len(), row as nat)
                &&& v == entry(math(*calc), tensor@, data@, row as nat, x, true)
            },
            Err(e) => {
                &&& !row_ok(tensor@, data@.len(), row as nat)
                &&& is_row_fault(tensor@, data@.len(), row as nat, e)
            },
        },
{
    let ghost m = math(*calc);
    let ghost bytes = data@.skip(tensor@.row_offset(row as nat) as int);
    let finish = |acc: u32, dot: BlockDot, dx: u32| -> (r: u32)
        ensures
            r == block_products(math(*calc))(acc, dot, dx),
        {
            let v: u32 = make_block_value(calc, dot, dx);
            make(calc, Calc::Add(acc, v))
        };
    proof {
        assert(tensor@.row_computable(row as nat));
    }
    let dots = dot_row_q5k_q8k(tensor, data, row, q8k)?;
    let total: u32 = accumulate(ZERO, dots.as_slice(), q8k.d.as_slice(), &finish);
    proof {
        lemma_accumulated_is_fold(finish, block_products(m), ZERO, dots@, q8k.d@, total);
        assert(dots@ =~= Seq::new(
            blocks_of(x.len(), 256),
            |b: int| block_dot_of(bytes, vector_quants(m, x), vector_sums(m, x), b),
        ));
    }
    Ok(total)
}

/// Whether `e` is the error of the first row from `from` on that cannot be
/// decoded.
pub open spec fn is_first_fault(t: TensorView, len: nat, from: nat, to: nat, e: GgufError) -> bool {
    exists|row: nat|
        {
            &&& from <= row < to
            &&& !row_ok(t, len, row)
            &&& #[trigger] is_row_fault(t, len, row, e)
            &&& forall|r: nat| from <= r < row ==> #[trigger] row_ok(t, len, r)
        }
}

// ── The two projections of a feed-forward block ─────────────────────────────

/// How many rows the projections of a feed-forward block have: the second dimension of
/// the first tensor.
pub open spec fn pair_rows(gate: TensorView) -> nat {
    gate.dims[1] as nat
}

/// Whether a vector of `n` elements can be multiplied with the rows of both tensors of a
/// feed-forward block.
pub open spec fn pair_multipliable(gate: TensorView, up: TensorView, n: nat) -> bool {
    &&& gate.dims.len() >= 2
    &&& blocks_of(n, 256) * 256 <= usize::MAX
    &&& forall|row: nat| row < pair_rows(gate) ==> #[trigger] row_multipliable(gate, row, n)
    &&& forall|row: nat| row < pair_rows(gate) ==> #[trigger] row_multipliable(up, row, n)
}

/// Whether a row of both tensors can be decoded.
pub open spec fn pair_row_ok(gate: TensorView, up: TensorView, len: nat, row: nat) -> bool {
    row_ok(gate, len, row) && row_ok(up, len, row)
}

/// Whether all the rows of a feed-forward block can be decoded.
pub open spec fn pair_ok(gate: TensorView, up: TensorView, len: nat) -> bool {
    forall|row: nat| row < pair_rows(gate) ==> #[trigger] pair_row_ok(gate, up, len, row)
}

/// Whether `e` is the error for a row of which one cannot be decoded: that of the first
/// tensor comes before that of the second.
pub open spec fn is_pair_row_fault(
    gate: TensorView,
    up: TensorView,
    len: nat,
    row: nat,
    e: GgufError,
) -> bool {
    if !row_ok(gate, len, row) {
        is_row_fault(gate, len, row, e)
    } else {
        is_row_fault(up, len, row, e)
    }
}

/// Whether `e` is the error of the first row of a feed-forward block that cannot be
/// decoded in both tensors.
pub open spec fn is_first_pair_fault(
    gate: TensorView,
    up: TensorView,
    len: nat,
    e: GgufError,
) -> bool {
    exists|row: nat|
        {
            &&& row < pair_rows(gate)
            &&& !pair_row_ok(gate, up, len, row)
            &&& #[trigger] is_pair_row_fault(gate, up, len, row, e)
            &&& forall|r: nat| r < row ==> #[trigger] pair_row_ok(gate, up, len, r)
        }
}

/// The error of the first row that cannot be decoded in both tensors.
fn first_pair_fault(gate: &TensorInfo, up: &TensorInfo, data: &[u8], rows: usize) -> (e: GgufError)
    requires
        rows == pair_rows(gate@),
        !pair_ok(gate@, up@, data@.len()),
        forall|row: nat| row < rows ==> #[trigger] gate@.row_computable(row),
        forall|row: nat| row < rows ==> #[trigger] up@.row_computable(row),
    ensures
        is_first_pair_fault(gate@, up@, data@.len(), e),
{
    let mut row: usize = 0;
    loop
        invariant
            row <= rows,
            rows == pair_rows(gate@),
            !pair_ok(gate@, up@, data@.len()),
            forall|r: nat| r < rows ==> #[trigger] gate@.row_computable(r),
            forall|r: nat| r < rows ==> #[trigger] up@.row_computable(r),
            forall|r: nat| r < row ==> #[trigger] pair_row_ok(gate@, up@, data@.len(), r),
        decreases rows - row,
    {
        proof {
            if row == rows {
                assert(pair_ok(gate@, up@, data@.len()));
            }
            assert(gate@.row_computable(row as nat) && up@.row_computable(row as nat));
        }
        if let Err(e) = dequant_row(gate, data, row) {
            proof {
                assert(!row_ok(gate@, data@.len(), row as nat));
                assert(is_pair_row_fault(gate@, up@, data@.len(), row as nat, e));
            }
            return e;
        }
        if let Err(e) = dequant_row(up, data, row) {
            proof {
                assert(!row_ok(up@, data@.len(), row as nat));
                assert(is_pair_row_fault(gate@, up@, data@.len(), row as nat, e));
            }
            return e;
        }
        proof {
            assert(pair_row_ok(gate@, up@, data@.len(), row as nat));
        }
        row += 1;
    }
}

/// Whether all the rows of a feed-forward block can be decoded.
pub(crate) fn is_pair_ok(gate: &TensorInfo, up: &TensorInfo, data: &[u8]) -> (r: bool)
    requires
        pair_rows(gate@) <= usize::MAX,
        exists|n: nat| #[trigger] pair_multipliable(gate@, up@, n),
    ensures
        r == pair_ok(gate@, up@, data@.len()),
{
    let rows: usize = gate.dims[1] as usize;
    proof {
        let n = choose|n: nat| #[trigger] pair_multipliable(gate@, up@, n);
        assert forall|row: nat| row < rows implies #[trigger] gate@.row_computable(row) by {
            assert(row_multipliable(gate@, row, n));
        }
        assert forall|row: nat| row < rows implies #[trigger] up@.row_computable(row) by {
            assert(row_multipliable(up@, row, n));
        }
    }
    let r: bool = rows_are_ok(gate, data, rows) && rows_are_ok(up, data, rows);
    proof {
        let len = data@.len();
        if r {
            assert forall|row: nat| row < rows implies #[trigger] pair_row_ok(
                gate@,
                up@,
                len,
                row,
            ) by {
                assert(row_ok(gate@, len, row) && row_ok(up@, len, row));
            }
        } else if pair_ok(gate@, up@, len) {
            assert forall|row: nat| row < rows implies #[trigger] row_ok(gate@, len, row) by {
                assert(pair_row_ok(gate@, up@, len, row));
            }
            assert forall|row: nat| row < rows implies #[trigger] row_ok(up@, len, row) by {
                assert(pair_row_ok(gate@, up@, len, row));
            }
        }
    }
    r
}

/// Whether a vector of `n` elements can be multiplied with the rows of both tensors of a
/// feed-forward block without overflow.
pub fn is_pair_multipliable(gate: &TensorInfo, up: &TensorInfo, n: usize) -> (r: bool)
    requires
        gate@.dims.len() >= 2 ==> pair_rows(gate@) <= usize::MAX,
    ensures
        r == pair_multipliable(gate@, up@, n as nat),
{
    if gate.dims.len() < 2 {
        return false;
    }
    let rows: usize = gate.dims[1] as usize;
    let blocks: usize = block_count(n, 256);
    if blocks.checked_mul(256).is_none() {
        return false;
    }
    rows == 0 || (are_rows_multipliable(gate, rows, n) && are_rows_multipliable(up, rows, n))
}

/// Whether a vector of `n` elements can be multiplied with the first rows of a tensor.
fn are_rows_multipliable(tensor: &TensorInfo, rows: usize, n: usize) -> (r: bool)
    requires
        0 < rows,
        blocks_of(n as nat, 256) * 256 <= usize::MAX,
    ensures
        r == (forall|row: nat| row < rows ==> #[trigger] row_multipliable(tensor@, row, n as nat)),
{
    let ghost t = tensor@;
    if tensor.n_dims == 0 {
        return true;
    }
    let shaped: bool = tensor.dims.len() > 0 && tensor.dims[0] == n as u64;
    if !shaped || !row_computable(tensor, rows - 1) {
        proof {
            assert(!row_multipliable(t, (rows - 1) as nat, n as nat));
        }
        return false;
    }
    let count: usize = count_rows(tensor).unwrap();
    if tensor.n_dims == 1 || count == 0 {
        proof {
            assert forall|row: nat| row < rows implies #[trigger] row_multipliable(
                t,
                row,
                n as nat,
            ) by {
                assert(t.row_computable((rows - 1) as nat));
            }
        }
        return true;
    }
    let last: usize = if rows <= count {
        rows - 1
    } else {
        count - 1
    };
    let placed: bool = row_computable(tensor, last);
    proof {
        if placed {
            assert forall|row: nat| row < rows implies #[trigger] row_multipliable(
                t,
                row,
                n as nat,
            ) by {
                assert(t.row_computable(last as nat));
                if row <= last {
                    assert(row * t.row_bytes() <= last * t.row_bytes()) by (nonlinear_arith)
                        requires
                            row <= last,
                    ;
                }
            }
        } else {
            assert(!row_multipliable(t, last as nat, n as nat));
        }
    }
    placed
}

/// Whether the products of a tensor with a vector of `n` elements can be computed
/// without overflow.
pub fn is_multipliable(tensor: &TensorInfo, n: usize) -> (r: bool)
    ensures
        r == multipliable(tensor@, n as nat),
{
    let rows: usize = match count_rows(tensor) {
        Some(rows) => rows,
        None => {
            return false;
        },
    };
    let blocks: usize = block_count(n, 256);
    let fits: bool = blocks.checked_mul(256).is_some();
    let shaped: bool = if tensor.n_dims == 0 {
        true
    } else {
        tensor.dims.len() > 0 && tensor.dims[0] == n as u64
    };
    let placed: bool = rows == 0 || row_computable(tensor, rows - 1);
    proof {
        let t = tensor@;
        if placed {
            assert forall|row: nat| row < t.row_count() implies #[trigger] t.row_computable(
                row,
            ) by {
                let last = (t.row_count() - 1) as nat;
                assert(t.row_computable(last));
                assert(row * t.row_bytes() <= last * t.row_bytes()) by (nonlinear_arith)
                    requires
                        row <= last,
                ;
            }
        }
        if rows > 0 && !placed {
            assert(!t.row_computable((t.row_count() - 1) as nat));
        }
    }
    fits && shaped && placed
}

/// The product of a row with a vector, with the row decoded first: value by value,
/// as far as both go.
pub open spec fn batch_entry(m: Math, t: TensorView, data: Seq<u8>, row: nat, x: Seq<u32>) -> u32 {
    let values = elements_of(t.ggml_type, data.skip(t.row_offset(row) as int), t.row_len());
    let n = if values.len() <= x.len() {
        values.len() as int
    } else {
        x.len() as int
    };
    fold2(element_products(m), ZERO, values.take(n), x.take(n))
}

/// The vector of token `i` in a batch of vectors of `n` elements.
pub open spec fn token_input<A>(x: Seq<A>, n: nat, i: int) -> Seq<A> {
    x.subrange(i * n, i * n + n)
}

/// The values of results, or the first error among them.
fn gather<T>(results: Vec<Result<T>>) -> (r: Result<Vec<T>>)
    ensures
        match r {
            Ok(values) => {
                &&& values@.len() == results@.len()
                &&& forall|i: int|
                    0 <= i < results@.len() ==> #[trigger] results@[i] == Ok::<T, GgufError>(
                        values@[i],
                    )
            },
            Err(e) => exists|i: int|
                {
                    &&& 0 <= i < results@.len()
                    &&& #[trigger] results@[i] == Err::<T, GgufError>(e)
                    &&& forall|j: int| 0 <= j < i ==> #[trigger] results@[j] is Ok
                },
        },
{
    let ghost all = results@;
    let mut values: Vec<T> = Vec::new();
    for r in it: results
        invariant
            it.seq() == all,
            values@.len() == it.index(),
            forall|i: int|
                0 <= i < values@.len() ==> #[trigger] all[i] == Ok::<T, GgufError>(values@[i]),
    {
        match r {
            Ok(v) => values.push(v),
            Err(e) => {
                proof {
                    assert(all[it.index() as int] == Err::<T, GgufError>(e));
                }
                return Err(e);
            },
        }
    }
    Ok(values)
}

impl<'a> WeightMap<'a> {
    /// The products of the first rows of a tensor with a vector, each a fused
    /// dequant+dot, so that the weight matrix is never materialized. The rows are
    /// shared out among threads. Where `quantizing`, the vector is quantized first
    /// for a tensor of type Q5_K.
    fn products<F: Fn(Calc) -> u32 + Sync>(
        &self,
        tensor: &TensorInfo,
        rows: usize,
        x: &[u32],
        quantizing: bool,
        calc: &F,
    ) -> (r: Result<Vec<u32>>)
        requires
            computes(*calc),
            blocks_of(x@.len(), 256) * 256 <= usize::MAX,
            forall|row: nat| row < rows ==> #[trigger] row_multipliable(tensor@, row, x@.len()),
        ensures
            match r {
                Ok(out) => {
                    &&& out@.len() == rows
                    &&& forall|row: nat|
                        row < rows ==> #[trigger] row_ok(tensor@, self.bytes().len(), row)
                    &&& forall|i: int|
                        0 <= i < rows ==> #[trigger] out@[i] == entry(
                            math(*calc),
                            tensor@,
                            self.bytes(),
                            i as nat,
                            x@,
                            quantizing,
                        )
                },
                Err(e) => is_first_fault(tensor@, self.bytes().len(), 0, rows as nat, e),
            },
    {
        let data = self.data();
        let ghost bytes = data@;
        let results = if quantizing && tensor.ggml_type == GgmlType::Q5_K {
            let q8k = quantize(x, calc);
            let each = |row: usize| -> (r: Result<u32>)
                requires
                    row < rows,
                ensures
                    match r {
                        Ok(v) => {
                            &&& row_ok(tensor@, data@.len(), row as nat)
                            &&& v == entry(math(*calc), tensor@, data@, row as nat, x@, true)
                        },
                        Err(e) => {
                            &&& !row_ok(tensor@, data@.len(), row as nat)
                            &&& is_row_fault(tensor@, data@.len(), row as nat, e)
                        },
                    },
                { quantized_row_product(tensor, data, row, &q8k, Ghost(x@), calc) };
            map_range(rows, each)
        } else {
            let each = |row: usize| -> (r: Result<u32>)
                requires
                    row < rows,
                ensures
                    match r {
                        Ok(v) => {
                            &&& row_ok(tensor@, data@.len(), row as nat)
                            &&& v == entry(math(*calc), tensor@, data@, row as nat, x@, false)
                        },
                        Err(e) => {
                            &&& !row_ok(tensor@, data@.len(), row as nat)
                            &&& is_row_fault(tensor@, data@.len(), row as nat, e)
                        },
                    },
                { row_product(tensor, data, row, x, calc) };
            map_range(rows, each)
        };
        let ghost all = results@;
        proof {
            assert forall|i: int| 0 <= i < rows implies match #[trigger] all[i] {
                Ok(v) => {
                    &&& row_ok(tensor@, bytes.len(), i as nat)
                    &&& v == entry(math(*calc), tensor@, bytes, i as nat, x@, quantizing)
                },
                Err(e) => {
                    &&& !row_ok(tensor@, bytes.len(), i as nat)
                    &&& is_row_fault(tensor@, bytes.len(), i as nat, e)
                },
            } by {
                assert((i as usize) as int == i);
            }
        }
        let r = gather(results);
        let ghost outcome = r;
        proof {
            match outcome {
                Ok(values) => {
                    assert forall|row: nat| row < rows implies #[trigger] row_ok(
                        tensor@,
                        bytes.len(),
                        row,
                    ) by {
                        assert(all[row as int] is Ok);
                    }
                    assert forall|i: int| 0 <= i < rows implies #[trigger] values@[i] == entry(
                        math(*calc),
                        tensor@,
                        bytes,
                        i as nat,
                        x@,
                        quantizing,
                    ) by {
                        assert(all[i] is Ok);
                    }
                },
                Err(e) => {
                    let i = choose|i: int|
                        {
                            &&& 0 <= i < all.len()
                            &&& #[trigger] all[i] == Err::<u32, GgufError>(e)
                            &&& forall|j: int| 0 <= j < i ==> #[trigger] all[j] is Ok
                        };
                    assert(is_row_fault(tensor@, bytes.len(), i as nat, e));
                    assert forall|row: nat| 0 <= row < i implies #[trigger] row_ok(
                        tensor@,
                        bytes.len(),
                        row,
                    ) by {
                        assert(all[row as int] is Ok);
                    }
                },
            }
        }
        r
    }

    /// The products of the first rows of a tensor with a vector, over the first elements
    /// of `out`.
    fn multiply_rows<F: Fn(Calc) -> u32 + Sync>(
        &self,
        tensor: &TensorInfo,
        rows: usize,
        x: &[u32],
        out: &mut Vec<u32>,
        quantizing: bool,
        calc: &F,
    ) -> (r: Result<()>)
        requires
            computes(*calc),
            blocks_of(x@.len(), 256) * 256 <= usize::MAX,
            forall|row: nat| row < rows ==> #[trigger] row_multipliable(tensor@, row, x@.len()),
            rows <= old(out)@.len(),
        ensures
            match r {
                Ok(()) => {
                    &&& forall|row: nat|
                        row < rows ==> #[trigger] row_ok(tensor@, self.bytes().len(), row)
                    &&& final(out)@ == product(
                        math(*calc),
                        tensor@,
                        rows as nat,
                        self.bytes(),
                        x@,
                        quantizing,
                        old(out)@,
                    )
                },
                Err(e) => {
                    &&& is_first_fault(tensor@, self.bytes().len(), 0, rows as nat, e)
                    &&& final(out)@ == old(out)@
                },
            },
    {
        let values = self.products(tensor, rows, x, quantizing, calc)?;
        let mut i: usize = 0;
        while i < rows
            invariant
                i <= rows,
                rows == values@.len(),
                rows <= old(out)@.len(),
                out@.len() == old(out)@.len(),
                forall|k: int| 0 <= k < i ==> #[trigger] out@[k] == values@[k],
                forall|k: int| i <= k < out@.len() ==> #[trigger] out@[k] == old(out)@[k],
            decreases rows - i,
        {
            out.set(i, values[i]);
            i += 1;
        }
        proof {
            let t = tensor@;
            assert(out@ =~= product(
                math(*calc),
                t,
                rows as nat,
                self.bytes(),
                x@,
                quantizing,
                old(out)@,
            ));
        }
        Ok(())
    }

    /// Matrix-vector product, over the first elements of `out`. Where `quantizing`,
    /// the vector is quantized first for a tensor of type Q5_K.
    pub(crate) fn multiply_into<F: Fn(Calc) -> u32 + Sync>(
        &self,
        name: &str,
        x: &[u32],
        out: &mut Vec<u32>,
        quantizing: bool,
        calc: &F,
    ) -> (r: Result<()>)
        requires
            self.wf(),
            computes(*calc),
            last_named(self.tensor_list(), name@) matches Some(t) ==> {
                &&& multipliable(t, x@.len())
                &&& t.row_count() <= old(out)@.len()
            },
        ensures
            match last_named(self.tensor_list(), name@) {
                None => {
                    &&& r matches Err(e) && e.is_missing(tensor_name(name@))
                    &&& final(out)@ == old(out)@
                },
                Some(t) => match r {
                    Ok(()) => {
                        &&& forall|row: nat|
                            row < t.row_count() ==> #[trigger] row_ok(t, self.bytes().len(), row)
                        &&& final(out)@ == product(
                            math(*calc),
                            t,
                            t.row_count(),
                            self.bytes(),
                            x@,
                            quantizing,
                            old(out)@,
                        )
                    },
                    Err(e) => {
                        &&& is_first_fault(t, self.bytes().len(), 0, t.row_count(), e)
                        &&& final(out)@ == old(out)@
                    },
                },
            },
    {
        let tensor = match self.get(name) {
            Some(t) => t,
            None => {
                return Err(missing_tensor(name));
            },
        };
        let rows: usize = count_rows(tensor).unwrap();
        proof {
            assert forall|row: nat| row < rows implies #[trigger] row_multipliable(
                tensor@,
                row,
                x@.len(),
            ) by {
                assert(tensor@.row_computable(row));
            }
        }
        self.multiply_rows(tensor, rows, x, out, quantizing, calc)
    }

    /// One of the two projections of a feed-forward block: the product of `gate`, or else
    /// of `up`, with a vector. Both tensors are looked up first, `gate` says how many rows
    /// there are, and no row is written unless all of both can be decoded.
    pub(crate) fn project_into<F: Fn(Calc) -> u32 + Sync>(
        &self,
        gate: &str,
        up: &str,
        gating: bool,
        x: &[u32],
        out: &mut Vec<u32>,
        calc: &F,
    ) -> (r: Result<()>)
        requires
            self.wf(),
            computes(*calc),
            last_named(self.tensor_list(), gate@) matches Some(g) ==> last_named(
                self.tensor_list(),
                up@,
            ) matches Some(u) ==> {
                &&& pair_multipliable(g, u, x@.len())
                &&& pair_rows(g) <= old(out)@.len()
            },
        ensures
            match (
                last_named(self.tensor_list(), gate@),
                last_named(self.tensor_list(), up@),
            ) {
                (None, _) => {
                    &&& r matches Err(e) && e.is_missing(tensor_name(gate@))
                    &&& final(out)@ == old(out)@
                },
                (Some(_), None) => {
                    &&& r matches Err(e) && e.is_missing(tensor_name(up@))
                    &&& final(out)@ == old(out)@
                },
                (Some(g), Some(u)) => match r {
                    Ok(()) => {
                        &&& pair_ok(g, u, self.bytes().len())
                        &&& final(out)@ == product(
                            math(*calc),
                            if gating {
                                g
                            } else {
                                u
                            },
                            pair_rows(g),
                            self.bytes(),
                            x@,
                            false,
                            old(out)@,
                        )
                    },
                    Err(e) => {
                        &&& is_first_pair_fault(g, u, self.bytes().len(), e)
                        &&& final(out)@ == old(out)@
                    },
                },
            },
    {
        let g = match self.get(gate) {
            Some(t) => t,
            None => {
                return Err(missing_tensor(gate));
            },
        };
        let u = match self.get(up) {
            Some(t) => t,
            None => {
                return Err(missing_tensor(up));
            },
        };
        proof {
            assert(out@.len() == out.len());
        }
        let rows: usize = g.dims[1] as usize;
        let data = self.data();
        proof {
            assert(pair_multipliable(g@, u@, x@.len()));
            assert forall|row: nat| row < rows implies #[trigger] g@.row_computable(row) by {
                assert(row_multipliable(g@, row, x@.len()));
            }
            assert forall|row: nat| row < rows implies #[trigger] u@.row_computable(row) by {
                assert(row_multipliable(u@, row, x@.len()));
            }
        }
        if !is_pair_ok(g, u, data) {
            return Err(first_pair_fault(g, u, data, rows));
        }
        proof {
            let len = self.bytes().len();
            assert forall|row: nat| row < rows implies #[trigger] row_ok(g@, len, row) by {
                assert(pair_row_ok(g@, u@, len, row));
            }
            assert forall|row: nat| row < rows implies #[trigger] row_ok(u@, len, row) by {
                assert(pair_row_ok(g@, u@, len, row));
            }
        }
        let r = if gating {
            self.multiply_rows(g, rows, x, out, false, calc)
        } else {
            self.multiply_rows(u, rows, x, out, false, calc)
        };
        r
    }

    /// Matrix-vector product: `out = W * x`.
    ///
    /// `W` is the named weight tensor of shape `[in_dim, out_dim]` (GGUF order),
    /// `x` has length `in_dim`, and `out` receives `out_dim` values.
    ///
    /// Q5_K has a fused kernel on small integers against a quantized `x` that's
    /// faster than decoding each row once `x` is shared across enough rows to
    /// amortize the one-time quantization cost.
    pub fn matmul_into<F: Fn(Calc) -> u32 + Sync>(
        &self,
        name: &str,
        x: &[u32],
        out: &mut Vec<u32>,
        calc: &F,
    ) -> (r: Result<()>)
        requires
            self.wf(),
            computes(*calc),
            last_named(self.tensor_list(), name@) matches Some(t) ==> {
                &&& multipliable(t, x@.len())
                &&& t.row_count() <= old(out)@.len()
            },
        ensures
            match last_named(self.tensor_list(), name@) {
                None => {
                    &&& r matches Err(e) && e.is_missing(tensor_name(name@))
                    &&& final(out)@ == old(out)@
                },
                Some(t) => match r {
                    Ok(()) => {
                        &&& forall|row: nat|
                            row < t.row_count() ==> #[trigger] row_ok(t, self.bytes().len(), row)
                        &&& final(out)@ == product(
                            math(*calc),
                            t,
                            t.row_count(),
                            self.bytes(),
                            x@,
                            true,
                            old(out)@,
                        )
                    },
                    Err(e) => {
                        &&& is_first_fault(t, self.bytes().len(), 0, t.row_count(), e)
                        &&& final(out)@ == old(out)@
                    },
                },
            },
    {
        self.multiply_into(name, x, out, true, calc)
    }

    /// The products of one row of a tensor with each of `batch` vectors of `in_dim`
    /// elements. The row is decoded once.
    fn matmul_batch_row<F: Fn(Calc) -> u32>(
        &self,
        name: &str,
        row: usize,
        x: &[u32],
        in_dim: usize,
        batch: usize,
        calc: &F,
    ) -> (r: Result<Vec<u32>>)
        requires
            self.wf(),
            computes(*calc),
            last_named(self.tensor_list(), name@) matches Some(t) && t.row_computable(row as nat),
            x@.len() == batch * in_dim,
        ensures
            ({
                let t = last_named(self.tensor_list(), name@)->0;
                match r {
                    Ok(out) => {
                        &&& row_ok(t, self.bytes().len(), row as nat)
                        &&& out@ == Seq::new(
                            batch as nat,
                            |i: int|
                                batch_entry(
                                    math(*calc),
                                    t,
                                    self.bytes(),
                                    row as nat,
                                    token_input(x@, in_dim as nat, i),
                                ),
                        )
                    },
                    Err(e) => {
                        &&& !row_ok(t, self.bytes().len(), row as nat)
                        &&& is_row_fault(t, self.bytes().len(), row as nat, e)
                    },
                }
            }),
    {
        let values = self.dequant_row(name, row)?;
        let ghost m = math(*calc);
        let ghost t = last_named(self.tensor_list(), name@)->0;
        let ghost bytes = self.bytes().skip(t.row_offset(row as nat) as int);
        proof {
            law_decoded_row_holds_the_values(t.ggml_type, bytes, t.row_len(), values);
        }
        let take_in = |acc: u32, e: Element, y: u32| -> (r: u32)
            ensures
                r == element_products(math(*calc))(acc, e, y),
            {
                let v: u32 = make_value(calc, e);
                make_multiply_add(calc, acc, v, y)
            };
        let len: usize = x.len();
        let mut out: Vec<u32> = Vec::new();
        let mut i: usize = 0;
        while i < batch
            invariant
                i <= batch,
                len == x@.len(),
                len == batch * in_dim,
                crate::quant::block::takes_in(take_in),
                forall|a: u32, e: Element, y: u32, r: u32| #[trigger]
                    take_in.ensures((a, e, y), r) ==> r == element_products(m)(a, e, y),
                values.elements() == elements_of(
                    t.ggml_type,
                    self.bytes().skip(t.row_offset(row as nat) as int),
                    t.row_len(),
                ),
                out@.len() == i,
                forall|k: int|
                    0 <= k < i ==> #[trigger] out@[k] == batch_entry(
                        m,
                        t,
                        self.bytes(),
                        row as nat,
                        token_input(x@, in_dim as nat, k),
                    ),
            decreases batch - i,
        {
            proof {
                assert(i * in_dim + in_dim <= batch * in_dim) by (nonlinear_arith)
                    requires
                        i + 1 <= batch,
                ;
                assert(0 <= i * in_dim) by (nonlinear_arith);
            }
            let start: usize = i * in_dim;
            let xt = slice_subrange(x, start, start + in_dim);
            let v: u32 = accumulate_row(ZERO, &values, xt, &take_in);
            proof {
                let es = values.elements();
                let n = if es.len() <= xt@.len() {
                    es.len() as int
                } else {
                    xt@.len() as int
                };
                lemma_accumulated_is_fold(
                    take_in,
                    element_products(m),
                    ZERO,
                    es.take(n),
                    xt@.take(n),
                    v,
                );
                assert(xt@ =~= token_input(x@, in_dim as nat, i as int));
            }
            out.push(v);
            i += 1;
        }
        proof {
            assert(out@ =~= Seq::new(
                batch as nat,
                |i: int|
                    batch_entry(
                        m,
                        t,
                        self.bytes(),
                        row as nat,
                        token_input(x@, in_dim as nat, i),
                    ),
            ));
        }
        Ok(out)
    }

    /// Batched matmul: `out[t] = W * x[t]` for each of `batch` input rows.
    ///
    /// Each weight row is decoded **once** and multiplied with all `batch` input
    /// rows — amortizing the decoding that the per-token [`WeightMap::matmul_into`]
    /// pays `batch` times. This is the batched-prefill win: one weight read per
    /// layer instead of one per prompt token.
    ///
    /// `x` is `[batch * in_dim]` token-major and `out` is `[batch * out_dim]`
    /// token-major, so token `t`'s result is `out[t*out_dim ..][.. out_dim]`.
    pub fn matmul_batch_into<F: Fn(Calc) -> u32 + Sync>(
        &self,
        name: &str,
        x: &[u32],
        out: &mut Vec<u32>,
        batch: usize,
        calc: &F,
    ) -> (r: Result<()>)
        requires
            self.wf(),
            computes(*calc),
            last_named(self.tensor_list(), name@) matches Some(t) ==> {
                &&& rows_countable(t)
                &&& forall|row: nat| row < t.row_count() ==> #[trigger] t.row_computable(row)
                &&& old(out)@.len() == batch * t.row_count()
            },
            batch > 0,
            x@.len() % batch as nat == 0,
        ensures
            final(out)@.len() == old(out)@.len(),
            match last_named(self.tensor_list(), name@) {
                None => {
                    &&& r matches Err(e) && e.is_missing(tensor_name(name@))
                    &&& final(out)@ == old(out)@
                },
                Some(t) => match r {
                    Ok(()) => {
                        let in_dim = x@.len() / batch as nat;
                        &&& forall|row: nat|
                            row < t.row_count() ==> #[trigger] row_ok(t, self.bytes().len(), row)
                        &&& forall|i: int, row: int|
                            0 <= i < batch && 0 <= row < t.row_count() ==> final(out)@[
                                #[trigger] (i * t.row_count() + row)] == batch_entry(
                                math(*calc),
                                t,
                                self.bytes(),
                                row as nat,
                                token_input(x@, in_dim, i),
                            )
                    },
                    Err(e) => {
                        &&& is_first_fault(t, self.bytes().len(), 0, t.row_count(), e)
                        &&& final(out)@ == old(out)@
                    },
                },
            },
    {
        let tensor = match self.get(name) {
            Some(t) => t,
            None => {
                return Err(missing_tensor(name));
            },
        };
        let rows: usize = count_rows(tensor).unwrap();
        let in_dim: usize = x.len() / batch;
        let ghost m = math(*calc);
        let ghost t = tensor@;
        let ghost count = t.row_count() as int;
        let ghost bytes = self.bytes();
        proof {
            vstd::arithmetic::div_mod::lemma_fundamental_div_mod(x@.len() as int, batch as int);
            assert(batch * in_dim == in_dim * batch) by (nonlinear_arith);
        }
        let each = |row: usize| -> (r: Result<Vec<u32>>)
            requires
                row < tensor@.row_count(),
            ensures
                match r {
                    Ok(out) => {
                        &&& row_ok(tensor@, self.bytes().len(), row as nat)
                        &&& out@ == Seq::new(
                            batch as nat,
                            |i: int|
                                batch_entry(
                                    math(*calc),
                                    tensor@,
                                    self.bytes(),
                                    row as nat,
                                    token_input(x@, in_dim as nat, i),
                                ),
                        )
                    },
                    Err(e) => {
                        &&& !row_ok(tensor@, self.bytes().len(), row as nat)
                        &&& is_row_fault(tensor@, self.bytes().len(), row as nat, e)
                    },
                },
            {
                proof {
                    assert(tensor@.row_computable(row as nat));
                }
                self.matmul_batch_row(name, row, x, in_dim, batch, calc)
            };
        let results = map_range(rows, each);
        let ghost all = results@;
        proof {
            assert forall|i: int| 0 <= i < rows implies match #[trigger] all[i] {
                Ok(out) => {
                    &&& row_ok(t, bytes.len(), i as nat)
                    &&& out@ == Seq::new(
                        batch as nat,
                        |k: int|
                            batch_entry(
                                m,
                                t,
                                bytes,
                                i as nat,
                                token_input(x@, in_dim as nat, k),
                            ),
                    )
                },
                Err(e) => {
                    &&& !row_ok(t, bytes.len(), i as nat)
                    &&& is_row_fault(t, bytes.len(), i as nat, e)
                },
            } by {
                assert((i as usize) as int == i);
            }
        }
        let mut entries = match gather(results) {
            Ok(entries) => entries,
            Err(e) => {
                proof {
                    let i = choose|i: int|
                        {
                            &&& 0 <= i < all.len()
                            &&& #[trigger] all[i] == Err::<Vec<u32>, GgufError>(e)
                            &&& forall|j: int| 0 <= j < i ==> #[trigger] all[j] is Ok
                        };
                    assert(is_row_fault(t, bytes.len(), i as nat, e));
                    assert forall|row: nat| 0 <= row < i implies #[trigger] row_ok(
                        t,
                        bytes.len(),
                        row,
                    ) by {
                        assert(all[row as int] is Ok);
                    }
                }
                return Err(e);
            },
        };
        proof {
            assert forall|row: nat| row < count implies #[trigger] row_ok(t, bytes.len(), row) by {
                assert(all[row as int] is Ok);
            }
            assert forall|r: int| 0 <= r < rows implies (#[trigger] entries@[r])@ == Seq::new(
                batch as nat,
                |k: int| batch_entry(m, t, bytes, r as nat, token_input(x@, in_dim as nat, k)),
            ) by {
                assert(all[r] is Ok);
            }
            assert(0 * batch == 0);
        }
        let mut row_major: Vec<u32> = Vec::new();
        let mut row: usize = 0;
        while row < rows
            invariant
                row <= rows,
                rows == entries@.len(),
                out@ == old(out)@,
                forall|r: int|
                    row <= r < rows ==> (#[trigger] entries@[r])@ == Seq::new(
                        batch as nat,
                        |k: int|
                            batch_entry(m, t, bytes, r as nat, token_input(x@, in_dim as nat, k)),
                    ),
                row_major@.len() == row * batch,
                forall|r: int, i: int|
                    0 <= r < row && 0 <= i < batch ==> row_major@[#[trigger] (r * batch + i)]
                        == batch_entry(m, t, bytes, r as nat, token_input(x@, in_dim as nat, i)),
            decreases rows - row,
        {
            let ghost before = row_major@;
            let ghost added = entries@[row as int]@;
            row_major.append(&mut entries[row]);
            proof {
                assert((row + 1) * batch == row * batch + batch) by (nonlinear_arith);
                assert forall|r: int, i: int| 0 <= r < row + 1 && 0 <= i < batch implies row_major@[
                    #[trigger] (r * batch + i)] == batch_entry(
                    m,
                    t,
                    bytes,
                    r as nat,
                    token_input(x@, in_dim as nat, i),
                ) by {
                    assert(0 <= r * batch) by (nonlinear_arith)
                        requires
                            0 <= r,
                            0 <= batch,
                    ;
                    if r < row {
                        assert(r * batch + i < row * batch) by (nonlinear_arith)
                            requires
                                r + 1 <= row,
                                i < batch,
                        ;
                        assert(row_major@[r * batch + i] == before[r * batch + i]);
                    } else {
                        assert(row_major@[r * batch + i] == added[i]);
                    }
                }
            }
            row += 1;
        }
        *out = token_major(row_major.as_slice(), rows, batch);
        proof {
            assert(rows * batch == batch * count) by (nonlinear_arith)
                requires
                    rows == count,
            ;
            assert forall|i: int, r: int| 0 <= i < batch && 0 <= r < count implies out@[
                #[trigger] (i * count + r)] == batch_entry(
                m,
                t,
                bytes,
                r as nat,
                token_input(x@, in_dim as nat, i),
            ) by {
                assert(i * count + r == i * rows + r);
                assert(out@[i * rows + r] == row_major@[r * batch + i]);
            }
        }
        Ok(())
    }
}

/// A batch computes for each of its tokens what the product for that token alone
/// is, for the types whose rows are multiplied value by value.
pub proof fn law_batch_agrees_with_single(
    m: Math,
    t: TensorView,
    data: Seq<u8>,
    row: nat,
    x: Seq<u32>,
)
    requires
        row_ok(t, data.len(), row),
        x.len() == t.row_len(),
        t.ggml_type != GgmlType::Q8_0,
        t.ggml_type != GgmlType::Q4_K,
        t.ggml_type != GgmlType::Q5_K,
        t.ggml_type != GgmlType::Q6_K,
    ensures
        batch_entry(m, t, data, row, x) == entry(m, t, data, row, x, true),
{
    let values = elements_of(t.ggml_type, data.skip(t.row_offset(row) as int), t.row_len());
    assert(values.len() == x.len());
    assert(values.take(x.len() as int) =~= values);
    assert(x.take(x.len() as int) =~= x);
}

} // verus!
