//! Q5_K dequantization.
//!
//! Block layout (176 bytes per block, 256 values per block), matching
//! llama.cpp `block_q5_K`:
//!
//!   struct block_q5_K {
//!       half d;             // super-block scale (2 bytes)
//!       half dmin;          // super-block minimum (2 bytes)
//!       uint8_t scales[12]; // packed sub-block scales and mins (12 bytes)
//!       uint8_t qh[32];     // high bit of each 5-bit quant (32 bytes)
//!       uint8_t qs[128];    // low 4 bits, packed 2 per byte (128 bytes)
//!   };
//!
//! Total: 2 + 2 + 12 + 32 + 128 = 176 bytes.
//!
//! Dequant formula: value = d * sc * quant - min * m
//! where quant is the 5-bit value (0..31): low nibble from `qs` plus the
//! high bit from `qh`, bit `s` of each byte for the sub-block `s`.

use vstd::prelude::*;
use vstd::string::*;

use crate::error::Result;
use crate::quant::block::{
    bit, block_count, blocks_of, check_length, half_at,
    high_nibble, lemma_bit_ranges, low_nibble, quantized_elements, read_half, takes_in, too_short,
    Element, Weight,
};
use crate::quant::order::{adds, dot_in_lanes, is_lanes_dot};
use crate::quant::q4_k::{packed_min, packed_scale, scale_min_at};
use crate::quant::q8_k::{group_sum, Q8KRow};

verus! {

/// Elements of one block.
pub const BLOCK_SIZE: usize = 256;

/// Bytes of one block.
pub const BLOCK_BYTES: usize = 176;

/// The quant `r` of the block at `base`.
pub open spec fn quant_at(data: Seq<u8>, base: int, r: int) -> int {
    let byte = data[base + 48 + 32 * (r / 64) + r % 32];
    let low = if r % 64 < 32 {
        low_nibble(byte)
    } else {
        high_nibble(byte)
    };
    low + 16 * bit(data[base + 16 + r % 32], r / 32)
}

fn read_quant(data: &[u8], base: usize, r: usize) -> (quant: i32)
    requires
        r < 256,
        base + 176 <= data@.len() <= usize::MAX,
    ensures
        quant == quant_at(data@, base as int, r as int),
        0 <= quant < 32,
{
    let byte: u8 = data[base + 48 + 32 * (r / 64) + r % 32];
    let low: u8 = if r % 64 < 32 {
        byte & 0x0F
    } else {
        byte >> 4
    };
    let k: u8 = (r / 32) as u8;
    let holder: u8 = data[base + 16 + r % 32];
    let high: u8 = (holder >> k) & 1;
    proof {
        lemma_bit_ranges(byte, 0);
        lemma_bit_ranges(holder, k);
    }
    low as i32 + 16 * high as i32
}

/// The weight `r` of the block at `base`.
pub open spec fn weight_at(data: Seq<u8>, base: int, r: int) -> Weight {
    Weight {
        d: half_at(data, base),
        dmin: half_at(data, base + 2),
        scale: packed_scale(data, base + 4, r / 32) as i32,
        min: packed_min(data, base + 4, r / 32) as i32,
        quant: quant_at(data, base, r) as i32,
    }
}

/// The weight `i` of a row.
pub open spec fn weight(data: Seq<u8>, i: int) -> Weight {
    weight_at(data, 176 * (i / 256), i % 256)
}

/// The first `n` weights of a row.
pub open spec fn weights_of(data: Seq<u8>, n: nat) -> Seq<Weight> {
    Seq::new(n, |i: int| weight(data, i))
}

fn read_weight(data: &[u8], base: usize, r: usize, d: u16, dmin: u16) -> (w: Weight)
    requires
        r < 256,
        base + 176 <= data@.len() <= usize::MAX,
        d == half_at(data@, base as int),
        dmin == half_at(data@, base + 2),
    ensures
        w == weight_at(data@, base as int, r as int),
{
    let (scale, min) = scale_min_at(data, base + 4, r / 32);
    let quant: i32 = read_quant(data, base, r);
    Weight { d, dmin, scale: scale as i32, min: min as i32, quant }
}

/// The whole numbers that the first `n` weights of a row are computed from.
pub fn dequant_q5_k(data: &[u8], n_elements: usize) -> (r: Result<Vec<Weight>>)
    requires
        blocks_of(n_elements as nat, 256) * 176 <= usize::MAX,
    ensures
        match r {
            Ok(ws) => {
                &&& blocks_of(n_elements as nat, 256) * 176 <= data@.len()
                &&& ws@ == weights_of(data@, n_elements as nat)
            },
            Err(e) => {
                &&& blocks_of(n_elements as nat, 256) * 176 > data@.len()
                &&& e.is_backend(
                    too_short(
                        "Q5_K dequant"@,
                        blocks_of(n_elements as nat, 256) * 176,
                        data@.len(),
                    ),
                )
            },
        },
{
    weights("Q5_K dequant", data, n_elements)
}

/// The whole numbers that the first `n` weights of a row are computed from;
/// `what` names the operation in the error.
pub fn weights(what: &str, data: &[u8], n: usize) -> (r: Result<Vec<Weight>>)
    requires
        blocks_of(n as nat, 256) * 176 <= usize::MAX,
    ensures
        match r {
            Ok(ws) => {
                &&& blocks_of(n as nat, 256) * 176 <= data@.len()
                &&& ws@ == weights_of(data@, n as nat)
            },
            Err(e) => {
                &&& blocks_of(n as nat, 256) * 176 > data@.len()
                &&& e.is_backend(
                    too_short(what@, blocks_of(n as nat, 256) * 176, data@.len()),
                )
            },
        },
{
    let n_blocks: usize = block_count(n, BLOCK_SIZE);
    check_length(what, n_blocks * BLOCK_BYTES, data.len())?;
    let mut out: Vec<Weight> = Vec::new();
    let mut b: usize = 0;
    while b < n_blocks
        invariant
            b <= n_blocks,
            n_blocks == blocks_of(n as nat, 256),
            n_blocks * 176 <= data@.len() <= usize::MAX,
            out@.len() == (if b < n_blocks {
                256 * b
            } else {
                n as int
            }),
            forall|i: int| 0 <= i < out@.len() ==> out@[i] == weight(data@, i),
        decreases n_blocks - b,
    {
        let base: usize = b * BLOCK_BYTES;
        let d: u16 = read_half(data, base);
        let dmin: u16 = read_half(data, base + 2);
        let mut r: usize = 0;
        while r < BLOCK_SIZE && out.len() < n
            invariant
                r <= BLOCK_SIZE,
                b < n_blocks,
                n_blocks == blocks_of(n as nat, 256),
                n_blocks * 176 <= data@.len() <= usize::MAX,
                base == b * 176,
                out@.len() == 256 * b + r,
                out@.len() <= n,
                forall|i: int| 0 <= i < out@.len() ==> out@[i] == weight(data@, i),
                d == half_at(data@, base as int),
                dmin == half_at(data@, base + 2),
            decreases BLOCK_SIZE - r,
        {
            out.push(read_weight(data, base, r, d, dmin));
            proof {
                let i = out@.len() - 1;
                assert(i / 256 == b && i % 256 == r);
            }
            r += 1;
        }
        b += 1;
    }
    proof {
        assert(out@ =~= weights_of(data@, n as nat));
    }
    Ok(out)
}

/// One block of the product of a row with a quantized activation vector: its
/// share of the sum is `dx · (d · pos − dmin · min)`, with the scale `dx` of the
/// activation's block.
#[derive(Debug, Clone, Copy, PartialEq, Eq, Structural)]
pub struct BlockDot {
    pub d: u16,
    pub dmin: u16,
    pub pos: i32,
    pub min: i32,
}

/// The sum of `scale · quant · x` over the first `count` weights of the block at
/// `base`; the block's activations begin at `start`.
pub open spec fn pos_sum(data: Seq<u8>, base: int, qs: Seq<i8>, start: int, count: nat) -> int
    decreases count,
{
    if count == 0 {
        0
    } else {
        let r = count - 1;
        pos_sum(data, base, qs, start, r as nat) + packed_scale(data, base + 4, r / 32) * quant_at(
            data,
            base,
            r,
        ) * qs[start + r]
    }
}

/// The sum of `min · x` over the first `count` weights of the block at `base`.
pub open spec fn min_sum(data: Seq<u8>, base: int, qs: Seq<i8>, start: int, count: nat) -> int
    decreases count,
{
    if count == 0 {
        0
    } else {
        let r = count - 1;
        min_sum(data, base, qs, start, r as nat) + packed_min(data, base + 4, r / 32) * qs[start
            + r]
    }
}

/// The sum of `min` times the activations of the first `count` sub-blocks, taken
/// from the sums of the activation's groups.
pub open spec fn grouped_min_sum(
    data: Seq<u8>,
    base: int,
    bsums: Seq<i16>,
    first: int,
    count: nat,
) -> int
    decreases count,
{
    if count == 0 {
        0
    } else {
        let j = count - 1;
        grouped_min_sum(data, base, bsums, first, j as nat) + packed_min(data, base + 4, j) * (
        bsums[first + 2 * j] + bsums[first + 2 * j + 1])
    }
}

/// What the product of a row with a quantized activation vector is made of in the
/// block `b`.
pub open spec fn block_dot(data: Seq<u8>, q8k: Q8KRow, b: int) -> BlockDot {
    block_dot_of(data, q8k.qs@, q8k.bsums@, b)
}

/// What the product of a row with a quantized activation vector is made of in the
/// block `b`, from the values of the vector and the sums of their groups.
pub open spec fn block_dot_of(data: Seq<u8>, qs: Seq<i8>, bsums: Seq<i16>, b: int) -> BlockDot {
    BlockDot {
        d: half_at(data, 176 * b),
        dmin: half_at(data, 176 * b + 2),
        pos: pos_sum(data, 176 * b, qs, 256 * b, 256) as i32,
        min: grouped_min_sum(data, 176 * b, bsums, 16 * b, 8) as i32,
    }
}

/// The sum over the sub-block `j`: its scale times the sum of `quant · x`.
fn sub_block_sum(data: &[u8], base: usize, qs: &Vec<i8>, start: usize, j: usize, scale: u8) -> (sum:
    i32)
    requires
        j < 8,
        base + 176 <= data@.len() <= usize::MAX,
        start + 256 <= qs@.len() <= usize::MAX,
        scale == packed_scale(data@, base + 4, j as int),
        scale < 64,
    ensures
        pos_sum(data@, base as int, qs@, start as int, (32 * j + 32) as nat) == pos_sum(
            data@,
            base as int,
            qs@,
            start as int,
            (32 * j) as nat,
        ) + sum,
        -8_000_000 <= sum <= 8_000_000,
{
    let ghost before = pos_sum(data@, base as int, qs@, start as int, (32 * j) as nat);
    let mut partial: i32 = 0;
    let mut l: usize = 0;
    proof {
        assert(scale as int * 0 == 0);
    }
    while l < 32
        invariant
            l <= 32,
            j < 8,
            base + 176 <= data@.len() <= usize::MAX,
            start + 256 <= qs@.len() <= usize::MAX,
            scale == packed_scale(data@, base + 4, j as int),
            -3968 * l <= partial <= 3968 * l,
            pos_sum(data@, base as int, qs@, start as int, (32 * j + l) as nat) == before
                + scale as int * partial as int,
        decreases 32 - l,
    {
        let r: usize = 32 * j + l;
        let w: i32 = read_quant(data, base, r);
        let x: i32 = qs[start + r] as i32;
        proof {
            assert(-3968 <= w as int * x as int <= 3968) by (nonlinear_arith)
                requires
                    0 <= w < 32,
                    -128 <= x <= 127,
            ;
            assert(scale as int * (partial as int + w as int * x as int) == scale as int
                * partial as int + scale as int * w as int * x as int) by (nonlinear_arith);
            assert((r as int) / 32 == j);
        }
        partial = partial + w * x;
        l += 1;
    }
    proof {
        assert(-8_000_000 <= scale as int * partial as int <= 8_000_000) by (nonlinear_arith)
            requires
                0 <= scale < 64,
                -126_976 <= partial <= 126_976,
        ;
    }
    scale as i32 * partial
}

/// The whole-number part of the product of the block at `base` with a block of
/// the activation vector.
fn read_block_dot(data: &[u8], base: usize, q8k: &Q8KRow, b: usize) -> (r: BlockDot)
    requires
        base == 176 * b,
        base + 176 <= data@.len() <= usize::MAX,
        q8k.shaped(),
        b < q8k.d@.len(),
        256 * b + 256 <= q8k.qs@.len() <= usize::MAX,
    ensures
        r == block_dot(data@, *q8k, b as int),
        r.pos == pos_sum(data@, 176 * b, q8k.qs@, 256 * b, 256),
        r.min == grouped_min_sum(data@, 176 * b, q8k.bsums@, 16 * b, 8),
{
    let d: u16 = read_half(data, base);
    let dmin: u16 = read_half(data, base + 2);
    let start: usize = 256 * b;
    let first: usize = 16 * b;
    let mut pos: i32 = 0;
    let mut min: i32 = 0;
    let mut j: usize = 0;
    while j < 8
        invariant
            j <= 8,
            base == 176 * b,
            start == 256 * b,
            first == 16 * b,
            base + 176 <= data@.len() <= usize::MAX,
            start + 256 <= q8k.qs@.len() <= usize::MAX,
            first + 16 <= q8k.bsums@.len(),
            pos == pos_sum(data@, base as int, q8k.qs@, start as int, (32 * j) as nat),
            min == grouped_min_sum(data@, base as int, q8k.bsums@, first as int, j as nat),
            -8_000_000 * j <= pos <= 8_000_000 * j,
            -5_000_000 * j <= min <= 5_000_000 * j,
        decreases 8 - j,
    {
        let (sc, m) = scale_min_at(data, base + 4, j);
        let sum: i32 = sub_block_sum(data, base, &q8k.qs, start, j, sc);
        let group: i32 = q8k.bsums[first + 2 * j] as i32 + q8k.bsums[first + 2 * j + 1] as i32;
        proof {
            assert(-5_000_000 <= m as int * group as int <= 5_000_000) by (nonlinear_arith)
                requires
                    0 <= m < 64,
                    -65536 <= group <= 65534,
            ;
        }
        pos = pos + sum;
        min = min + m as i32 * group;
        j += 1;
    }
    BlockDot { d, dmin, pos, min }
}

/// Fused Q5_K × Q8_K dot product, the whole-number part: both the weight row and
/// the (pre-quantized) activation are small integers, so each element contributes
/// an integer product, and the scales apply once per block.
pub fn dot_q5_k_q8k(data: &[u8], q8k: &Q8KRow) -> (r: Result<Vec<BlockDot>>)
    requires
        q8k.shaped(),
        blocks_of(q8k.n as nat, 256) * 256 <= usize::MAX,
    ensures
        match r {
            Ok(dots) => {
                &&& blocks_of(q8k.n as nat, 256) * 176 <= data@.len()
                &&& dots@.len() == q8k.d@.len()
                &&& forall|b: int|
                    0 <= b < dots@.len() ==> #[trigger] dots@[b] == block_dot(data@, *q8k, b)
            },
            Err(e) => {
                &&& blocks_of(q8k.n as nat, 256) * 176 > data@.len()
                &&& e.is_backend(
                    too_short(
                        "Q5_K x Q8_K dot"@,
                        blocks_of(q8k.n as nat, 256) * 176,
                        data@.len(),
                    ),
                )
            },
        },
{
    let n_blocks: usize = block_count(q8k.n, BLOCK_SIZE);
    check_length("Q5_K x Q8_K dot", n_blocks * BLOCK_BYTES, data.len())?;
    let qs_len: usize = q8k.qs.len();
    let data_len: usize = data.len();
    let mut dots: Vec<BlockDot> = Vec::new();
    let mut b: usize = 0;
    while b < n_blocks
        invariant
            b <= n_blocks,
            n_blocks == q8k.d@.len(),
            q8k.shaped(),
            qs_len == q8k.qs@.len(),
            data_len == data@.len(),
            n_blocks * 176 <= data@.len(),
            dots@.len() == b,
            forall|i: int| 0 <= i < b ==> #[trigger] dots@[i] == block_dot(data@, *q8k, i),
        decreases n_blocks - b,
    {
        dots.push(read_block_dot(data, b * BLOCK_BYTES, q8k, b));
        b += 1;
    }
    Ok(dots)
}

proof fn lemma_group_sum_split(qs: Seq<i8>, start: int, a: nat, b: nat)
    ensures
        group_sum(qs, start, a + b) == group_sum(qs, start, a) + group_sum(qs, start + a, b),
    decreases b,
{
    if b > 0 {
        lemma_group_sum_split(qs, start, a, (b - 1) as nat);
    }
}

proof fn lemma_min_sum_sub_block(data: Seq<u8>, base: int, qs: Seq<i8>, start: int, j: int, l: nat)
    requires
        0 <= j < 8,
        l <= 32,
    ensures
        min_sum(data, base, qs, start, (32 * j + l) as nat) == min_sum(
            data,
            base,
            qs,
            start,
            (32 * j) as nat,
        ) + packed_min(data, base + 4, j) * group_sum(qs, start + 32 * j, l),
    decreases l,
{
    if l == 0 {
        assert(packed_min(data, base + 4, j) * 0 == 0);
    } else {
        lemma_min_sum_sub_block(data, base, qs, start, j, (l - 1) as nat);
        let r = 32 * j + l - 1;
        assert(r / 32 == j);
        let m = packed_min(data, base + 4, j);
        let g = group_sum(qs, start + 32 * j, (l - 1) as nat);
        let x = qs[start + r] as int;
        assert(m * (g + x) == m * g + m * x) by (nonlinear_arith);
    }
}

pub(crate) proof fn lemma_grouped_min_sum(
    data: Seq<u8>,
    base: int,
    qs: Seq<i8>,
    bsums: Seq<i16>,
    b: int,
    j: nat,
)
    requires
        0 <= b,
        j <= 8,
        forall|g: int|
            16 * b <= g < 16 * b + 16 ==> #[trigger] bsums[g] == group_sum(qs, 16 * g, 16),
    ensures
        grouped_min_sum(data, base, bsums, 16 * b, j) == min_sum(
            data,
            base,
            qs,
            256 * b,
            32 * j,
        ),
    decreases j,
{
    if j > 0 {
        let k = j - 1;
        lemma_grouped_min_sum(data, base, qs, bsums, b, k as nat);
        lemma_min_sum_sub_block(data, base, qs, 256 * b, k, 32);
        assert(bsums[16 * b + 2 * k] == group_sum(qs, 16 * (16 * b + 2 * k), 16));
        assert(bsums[16 * b + 2 * k + 1] == group_sum(qs, 16 * (16 * b + 2 * k + 1), 16));
        lemma_group_sum_split(qs, 256 * b + 32 * k, 16, 16);
    }
}

/// The fused product agrees with the weights: in every block the two sums are
/// those of `scale · quant · x` and of `min · x` over the weights of the block.
pub proof fn law_fused_dot_agrees_with_weights(data: Seq<u8>, q8k: Q8KRow, b: int)
    requires
        q8k.wf(),
        0 <= b < q8k.d@.len(),
    ensures
        grouped_min_sum(data, 176 * b, q8k.bsums@, 16 * b, 8) == min_sum(
            data,
            176 * b,
            q8k.qs@,
            256 * b,
            256,
        ),
        forall|r: int|
            0 <= r < 256 ==> {
                let w = #[trigger] weight(data, 256 * b + r);
                &&& w.d == half_at(data, 176 * b)
                &&& w.dmin == half_at(data, 176 * b + 2)
                &&& w.quant == quant_at(data, 176 * b, r) as i32
                &&& w.scale == packed_scale(data, 176 * b + 4, r / 32) as i32
                &&& w.min == packed_min(data, 176 * b + 4, r / 32) as i32
            },
{
    lemma_grouped_min_sum(data, 176 * b, q8k.qs@, q8k.bsums@, b, 8);
    assert forall|r: int| 0 <= r < 256 implies {
        let w = #[trigger] weight(data, 256 * b + r);
        &&& w.d == half_at(data, 176 * b)
        &&& w.dmin == half_at(data, 176 * b + 2)
        &&& w.quant == quant_at(data, 176 * b, r) as i32
        &&& w.scale == packed_scale(data, 176 * b + 4, r / 32) as i32
        &&& w.min == packed_min(data, 176 * b + 4, r / 32) as i32
    } by {
        assert((256 * b + r) / 256 == b && (256 * b + r) % 256 == r);
    }
}

/// Fused Q5_K dequant + dot product: takes the weights of a row and the elements of
/// `x` into sums that begin with `zero`, by groups of lanes, which `plus` adds up.
pub fn dot_q5_k<A: Copy, F: Fn(A, Element, A) -> A, P: Fn(A, A) -> A>(
    data: &[u8],
    x: &[A],
    zero: A,
    take_in: &F,
    plus: &P,
) -> (r: Result<A>)
    requires
        blocks_of(x@.len(), 256) * 176 <= usize::MAX,
        takes_in(*take_in),
        adds(*plus),
    ensures
        match r {
            Ok(total) => {
                &&& blocks_of(x@.len(), 256) * 176 <= data@.len()
                &&& is_lanes_dot(
                    *take_in,
                    *plus,
                    zero,
                    quantized_elements(weights_of(data@, x@.len())),
                    x@,
                    total,
                )
            },
            Err(e) => {
                &&& blocks_of(x@.len(), 256) * 176 > data@.len()
                &&& e.is_backend(
                    too_short("Q5_K dot"@, blocks_of(x@.len(), 256) * 176, data@.len()),
                )
            },
        },
{
    let row = weights("Q5_K dot", data, x.len())?;
    Ok(dot_in_lanes(zero, row.as_slice(), x, take_in, plus))
}

} // verus!
