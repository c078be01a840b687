//! Q8_0 dequantization.
//!
//! Block layout (34 bytes per block, 32 values per block):
//!   bytes [0..2]  : half-precision scale (delta)
//!   bytes [2..34] : 32 signed bytes
//!
//! A weight is `delta * q[i]`.

use vstd::prelude::*;
use vstd::string::*;

use crate::error::Result;
use crate::quant::block::{
    accumulated, block_count, blocks_of, check_length, half_at, lemma_accumulated_next, read_half,
    signed_byte, signed_of, takes_in, too_short, Weight,
};

verus! {

/// Elements of one block.
pub const BLOCK_SIZE: usize = 32;

/// Bytes of one block.
pub const BLOCK_BYTES: usize = 34;

/// The weight `i` of a row.
pub open spec fn weight(data: Seq<u8>, i: int) -> Weight {
    let base = 34 * (i / 32);
    Weight {
        d: half_at(data, base),
        dmin: 0,
        scale: 1,
        min: 0,
        quant: signed_byte(data[base + 2 + i % 32]) as i32,
    }
}

/// The first `n` weights of a row.
pub open spec fn weights_of(data: Seq<u8>, n: nat) -> Seq<Weight> {
    Seq::new(n, |i: int| weight(data, i))
}

/// The whole numbers that the first `n` weights of a row are computed from.
pub fn dequant_q8_0(data: &[u8], n_elements: usize) -> (r: Result<Vec<Weight>>)
    requires
        blocks_of(n_elements as nat, 32) * 34 <= usize::MAX,
    ensures
        match r {
            Ok(ws) => {
                &&& blocks_of(n_elements as nat, 32) * 34 <= data@.len()
                &&& ws@ == weights_of(data@, n_elements as nat)
            },
            Err(e) => {
                &&& blocks_of(n_elements as nat, 32) * 34 > data@.len()
                &&& e.is_backend(
                    too_short(
                        "Q8_0 dequant"@,
                        blocks_of(n_elements as nat, 32) * 34,
                        data@.len(),
                    ),
                )
            },
        },
{
    weights("Q8_0 dequant", data, n_elements)
}

/// The whole numbers that the first `n` weights of a row are computed from;
/// `what` names the operation in the error.
pub fn weights(what: &str, data: &[u8], n: usize) -> (r: Result<Vec<Weight>>)
    requires
        blocks_of(n as nat, 32) * 34 <= usize::MAX,
    ensures
        match r {
            Ok(ws) => {
                &&& blocks_of(n as nat, 32) * 34 <= data@.len()
                &&& ws@ == weights_of(data@, n as nat)
            },
            Err(e) => {
                &&& blocks_of(n as nat, 32) * 34 > data@.len()
                &&& e.is_backend(
                    too_short(what@, blocks_of(n as nat, 32) * 34, data@.len()),
                )
            },
        },
{
    let n_blocks: usize = block_count(n, BLOCK_SIZE);
    check_length(what, n_blocks * BLOCK_BYTES, data.len())?;
    let mut out: Vec<Weight> = Vec::new();
    let mut b: usize = 0;
    while b < n_blocks
        invariant
            b <= n_blocks,
            n_blocks == blocks_of(n as nat, 32),
            n_blocks * 34 <= data@.len() <= usize::MAX,
            out@.len() == (if b < n_blocks {
                32 * b
            } else {
                n as int
            }),
            forall|i: int| 0 <= i < out@.len() ==> out@[i] == weight(data@, i),
        decreases n_blocks - b,
    {
        let base: usize = b * BLOCK_BYTES;
        let d: u16 = read_half(data, base);
        let mut r: usize = 0;
        while r < BLOCK_SIZE && out.len() < n
            invariant
                r <= BLOCK_SIZE,
                b < n_blocks,
                n_blocks == blocks_of(n as nat, 32),
                n_blocks * 34 <= data@.len() <= usize::MAX,
                base == b * 34,
                out@.len() == 32 * b + r,
                out@.len() <= n,
                forall|i: int| 0 <= i < out@.len() ==> out@[i] == weight(data@, i),
                d == half_at(data@, base as int),
            decreases BLOCK_SIZE - r,
        {
            let quant: i32 = signed_of(data[base + 2 + r]);
            out.push(Weight { d, dmin: 0, scale: 1, min: 0, quant });
            r += 1;
        }
        b += 1;
    }
    proof {
        assert(out@ =~= weights_of(data@, n as nat));
    }
    Ok(out)
}

/// How many of `n` elements lie in block `b`.
pub open spec fn block_elements(n: nat, b: int) -> nat {
    if n - 32 * b <= 32 {
        (n - 32 * b) as nat
    } else {
        32
    }
}

/// The quantized values of block `b` that the first `n` elements of a row take.
pub open spec fn block_quants(data: Seq<u8>, n: nat, b: int) -> Seq<i32> {
    Seq::new(block_elements(n, b), |i: int| weight(data, 32 * b + i).quant)
}

/// The part of a vector that meets block `b`.
pub open spec fn block_part<A>(x: Seq<A>, b: int) -> Seq<A> {
    x.subrange(32 * b, 32 * b + block_elements(x.len(), b))
}

/// The scales of the blocks that the first `n` elements of a row take.
pub open spec fn deltas(data: Seq<u8>, n: nat) -> Seq<u16> {
    Seq::new(blocks_of(n, 32), |b: int| half_at(data, 34 * b))
}

/// Whether `sums` holds, for each block, what comes from `zero` by taking in the
/// block's quantized values with the elements of `x` that they meet.
pub open spec fn are_block_sums<A, W: Fn(A, i32, A) -> A>(
    data: Seq<u8>,
    x: Seq<A>,
    zero: A,
    within: W,
    sums: Seq<A>,
) -> bool {
    forall|b: int|
        0 <= b < sums.len() ==> accumulated(
            within,
            zero,
            block_quants(data, x.len(), b),
            block_part(x, b),
            #[trigger] sums[b],
        )
}

/// Whether `total` is the product of a row with `x`, computed block by block: the
/// sum within each block, then the blocks, each with its scale.
pub open spec fn is_dot<A, W: Fn(A, i32, A) -> A, S: Fn(A, u16, A) -> A>(
    data: Seq<u8>,
    x: Seq<A>,
    zero: A,
    within: W,
    scaled: S,
    total: A,
) -> bool {
    exists|sums: Seq<A>|
        {
            &&& sums.len() == blocks_of(x.len(), 32)
            &&& are_block_sums(data, x, zero, within, sums)
            &&& #[trigger] accumulated(scaled, zero, deltas(data, x.len()), sums, total)
        }
}

/// Fused Q8_0 dequant + dot product, one block at a time, without ever
/// materializing the row.
///
/// The scale is factored out of the inner loop — since every value in a block
/// shares the same `delta`, `sum(delta*q[i]*x[i]) == delta * sum(q[i]*x[i])`:
/// `within` takes a quantized value and an element of `x` into the sum of a block,
/// and `scaled` takes a scale and the sum of its block into the total.
pub fn dot_q8_0<A: Copy, W: Fn(A, i32, A) -> A, S: Fn(A, u16, A) -> A>(
    data: &[u8],
    x: &[A],
    zero: A,
    within: &W,
    scaled: &S,
) -> (r: Result<A>)
    requires
        blocks_of(x@.len(), 32) * 34 <= usize::MAX,
        takes_in(*within),
        takes_in(*scaled),
    ensures
        match r {
            Ok(total) => {
                &&& blocks_of(x@.len(), 32) * 34 <= data@.len()
                &&& is_dot(data@, x@, zero, *within, *scaled, total)
            },
            Err(e) => {
                &&& blocks_of(x@.len(), 32) * 34 > data@.len()
                &&& e.is_backend(
                    too_short("Q8_0 dot"@, blocks_of(x@.len(), 32) * 34, data@.len()),
                )
            },
        },
{
    let n: usize = x.len();
    let n_blocks: usize = block_count(n, BLOCK_SIZE);
    check_length("Q8_0 dot", n_blocks * BLOCK_BYTES, data.len())?;
    let ghost ds = deltas(data@, n as nat);
    let ghost mut sums: Seq<A> = Seq::empty();
    let mut acc: A = zero;
    let mut b: usize = 0;
    proof {
        assert(ds.take(0).len() == 0);
    }
    while b < n_blocks
        invariant
            b <= n_blocks,
            n == x@.len(),
            n_blocks == blocks_of(n as nat, 32),
            n_blocks * 34 <= data@.len() <= usize::MAX,
            takes_in(*within),
            takes_in(*scaled),
            ds == deltas(data@, n as nat),
            sums.len() == b,
            are_block_sums(data@, x@, zero, *within, sums),
            accumulated(*scaled, zero, ds.take(b as int), sums, acc),
        decreases n_blocks - b,
    {
        let base: usize = b * BLOCK_BYTES;
        let d: u16 = read_half(data, base);
        let start: usize = b * BLOCK_SIZE;
        let count: usize = if n - start < BLOCK_SIZE {
            n - start
        } else {
            BLOCK_SIZE
        };
        let ghost quants = block_quants(data@, n as nat, b as int);
        let ghost part = block_part(x@, b as int);
        let mut sum: A = zero;
        let mut i: usize = 0;
        proof {
            assert(quants.take(0).len() == 0);
        }
        while i < count
            invariant
                i <= count,
                count == block_elements(n as nat, b as int),
                count <= 32,
                start == 32 * b,
                start + count <= n,
                n == x@.len(),
                base == 34 * b,
                base + 34 <= data@.len() <= usize::MAX,
                takes_in(*within),
                quants == block_quants(data@, n as nat, b as int),
                part == block_part(x@, b as int),
                accumulated(*within, zero, quants.take(i as int), part.take(i as int), sum),
            decreases count - i,
        {
            let q: i32 = signed_of(data[base + 2 + i]);
            let ghost before = sum;
            sum = within(sum, q, x[start + i]);
            proof {
                assert((32 * b + i) / 32 == b && (32 * b + i) % 32 == i);
                assert(quants[i as int] == q);
                assert(part[i as int] == x@[start + i]);
                lemma_accumulated_next(*within, zero, quants, part, i as int, before, sum);
            }
            i += 1;
        }
        let ghost before = acc;
        acc = scaled(acc, d, sum);
        proof {
            assert(quants.take(count as int) =~= quants);
            assert(part.take(count as int) =~= part);
            let grown = sums.push(sum);
            assert(grown.take(b as int) =~= sums);
            assert(grown.take(b + 1) =~= grown);
            assert(ds[b as int] == d);
            lemma_accumulated_next(*scaled, zero, ds, grown, b as int, before, acc);
            assert(are_block_sums(data@, x@, zero, *within, grown)) by {
                assert forall|c: int| 0 <= c < grown.len() implies accumulated(
                    *within,
                    zero,
                    block_quants(data@, x@.len(), c),
                    block_part(x@, c),
                    #[trigger] grown[c],
                ) by {
                    if c < b {
                        assert(grown[c] == sums[c]);
                    }
                }
            }
            sums = grown;
        }
        b += 1;
    }
    proof {
        assert(ds.take(n_blocks as int) =~= ds);
    }
    Ok(acc)
}

} // verus!
