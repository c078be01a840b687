//! Q6_K dequantization.
//!
//! Super-block layout (210 bytes, 256 values per block), matching ggml's
//! `block_q6_K`:
//!
//!   uint8_t ql[128];     // quants, lower 4 bits  (QK_K/2)
//!   uint8_t qh[64];      // quants, upper 2 bits  (QK_K/4)
//!   int8_t  scales[16];  // per 16-value sub-block scales (QK_K/16), signed
//!   half    d;           // super-block scale
//!
//! Total: 128 + 64 + 16 + 2 = 210 bytes.
//!
//! Each 6-bit quant is `q = (low4 | (high2 << 4)) - 32` (range -32..31), scaled
//! by `d * scales[sub]`.

use vstd::prelude::*;
use vstd::string::*;

use crate::error::Result;
use crate::quant::block::{
    bit_pair, block_count, blocks_of, check_length, half_at,
    high_nibble, lemma_bit_ranges, low_nibble, quantized_elements, read_half, signed_byte,
    signed_of, takes_in, too_short, Element, Weight,
};
use crate::quant::order::{dot_in_quarters, is_quarters_dot};

verus! {

/// Elements of one block.
pub const BLOCK_SIZE: usize = 256;

/// Bytes of one block.
pub const BLOCK_BYTES: usize = 210;

/// The quant `r` of the block at `base`. Each half of the block, of 128 values,
/// has four quarters: the first two take the low nibbles of its bytes, the last
/// two the high ones.
pub open spec fn quant_at(data: Seq<u8>, base: int, r: int) -> int {
    let half = r / 128;
    let quarter = (r % 128) / 32;
    let l = r % 32;
    let byte = data[base + 64 * half + 32 * (quarter % 2) + l];
    let low = if quarter < 2 {
        low_nibble(byte)
    } else {
        high_nibble(byte)
    };
    low + 16 * bit_pair(data[base + 128 + 32 * half + l], 2 * quarter) - 32
}

fn read_quant(data: &[u8], base: usize, r: usize) -> (quant: i32)
    requires
        r < 256,
        base + 210 <= data@.len() <= usize::MAX,
    ensures
        quant == quant_at(data@, base as int, r as int),
        -32 <= quant < 32,
{
    let half: usize = r / 128;
    let quarter: usize = (r % 128) / 32;
    let l: usize = r % 32;
    let byte: u8 = data[base + 64 * half + 32 * (quarter % 2) + l];
    let low: u8 = if quarter < 2 {
        byte & 0x0F
    } else {
        byte >> 4
    };
    let k: u8 = 2 * quarter as u8;
    let holder: u8 = data[base + 128 + 32 * half + l];
    let high: u8 = (holder >> k) & 3;
    proof {
        lemma_bit_ranges(byte, 0);
        lemma_bit_ranges(holder, k);
    }
    low as i32 + 16 * high as i32 - 32
}

/// The weight `r` of the block at `base`.
pub open spec fn weight_at(data: Seq<u8>, base: int, r: int) -> Weight {
    let half = r / 128;
    let quarter = (r % 128) / 32;
    let l = r % 32;
    Weight {
        d: half_at(data, base + 208),
        dmin: 0,
        scale: signed_byte(data[base + 192 + 8 * half + 2 * quarter + l / 16]) as i32,
        min: 0,
        quant: quant_at(data, base, r) as i32,
    }
}

/// The weight `i` of a row.
pub open spec fn weight(data: Seq<u8>, i: int) -> Weight {
    weight_at(data, 210 * (i / 256), i % 256)
}

/// The first `n` weights of a row.
pub open spec fn weights_of(data: Seq<u8>, n: nat) -> Seq<Weight> {
    Seq::new(n, |i: int| weight(data, i))
}

fn read_weight(data: &[u8], base: usize, r: usize, d: u16) -> (w: Weight)
    requires
        r < 256,
        base + 210 <= data@.len() <= usize::MAX,
        d == half_at(data@, base + 208),
    ensures
        w == weight_at(data@, base as int, r as int),
{
    let half: usize = r / 128;
    let quarter: usize = (r % 128) / 32;
    let l: usize = r % 32;
    let scale: i32 = signed_of(data[base + 192 + 8 * half + 2 * quarter + l / 16]);
    let quant: i32 = read_quant(data, base, r);
    Weight { d, dmin: 0, scale, min: 0, quant }
}

/// The whole numbers that the first `n` weights of a row are computed from.
pub fn dequant_q6_k(data: &[u8], n_elements: usize) -> (r: Result<Vec<Weight>>)
    requires
        blocks_of(n_elements as nat, 256) * 210 <= usize::MAX,
    ensures
        match r {
            Ok(ws) => {
                &&& blocks_of(n_elements as nat, 256) * 210 <= data@.len()
                &&& ws@ == weights_of(data@, n_elements as nat)
            },
            Err(e) => {
                &&& blocks_of(n_elements as nat, 256) * 210 > data@.len()
                &&& e.is_backend(
                    too_short(
                        "Q6_K dequant"@,
                        blocks_of(n_elements as nat, 256) * 210,
                        data@.len(),
                    ),
                )
            },
        },
{
    weights("Q6_K dequant", data, n_elements)
}

/// The whole numbers that the first `n` weights of a row are computed from;
/// `what` names the operation in the error.
pub fn weights(what: &str, data: &[u8], n: usize) -> (r: Result<Vec<Weight>>)
    requires
        blocks_of(n as nat, 256) * 210 <= usize::MAX,
    ensures
        match r {
            Ok(ws) => {
                &&& blocks_of(n as nat, 256) * 210 <= data@.len()
                &&& ws@ == weights_of(data@, n as nat)
            },
            Err(e) => {
                &&& blocks_of(n as nat, 256) * 210 > data@.len()
                &&& e.is_backend(
                    too_short(what@, blocks_of(n as nat, 256) * 210, data@.len()),
                )
            },
        },
{
    let n_blocks: usize = block_count(n, BLOCK_SIZE);
    check_length(what, n_blocks * BLOCK_BYTES, data.len())?;
    let mut out: Vec<Weight> = Vec::new();
    let mut b: usize = 0;
    while b < n_blocks
        invariant
            b <= n_blocks,
            n_blocks == blocks_of(n as nat, 256),
            n_blocks * 210 <= data@.len() <= usize::MAX,
            out@.len() == (if b < n_blocks {
                256 * b
            } else {
                n as int
            }),
            forall|i: int| 0 <= i < out@.len() ==> out@[i] == weight(data@, i),
        decreases n_blocks - b,
    {
        let base: usize = b * BLOCK_BYTES;
        let d: u16 = read_half(data, base + 208);
        let mut r: usize = 0;
        while r < BLOCK_SIZE && out.len() < n
            invariant
                r <= BLOCK_SIZE,
                b < n_blocks,
                n_blocks == blocks_of(n as nat, 256),
                n_blocks * 210 <= data@.len() <= usize::MAX,
                base == b * 210,
                out@.len() == 256 * b + r,
                out@.len() <= n,
                forall|i: int| 0 <= i < out@.len() ==> out@[i] == weight(data@, i),
                d == half_at(data@, base + 208),
            decreases BLOCK_SIZE - r,
        {
            out.push(read_weight(data, base, r, d));
            proof {
                let i = out@.len() - 1;
                assert(i / 256 == b && i % 256 == r);
            }
            r += 1;
        }
        b += 1;
    }
    proof {
        assert(out@ =~= weights_of(data@, n as nat));
    }
    Ok(out)
}

/// Fused Q6_K dequant + dot product: takes the weights of a row and the elements of
/// `x` into `zero`, one pair after the other, by quarters.
pub fn dot_q6_k<A: Copy, F: Fn(A, Element, A) -> A>(
    data: &[u8],
    x: &[A],
    zero: A,
    take_in: &F,
) -> (r: Result<A>)
    requires
        blocks_of(x@.len(), 256) * 210 <= usize::MAX,
        takes_in(*take_in),
    ensures
        match r {
            Ok(total) => {
                &&& blocks_of(x@.len(), 256) * 210 <= data@.len()
                &&& is_quarters_dot(
                    *take_in,
                    zero,
                    quantized_elements(weights_of(data@, x@.len())),
                    x@,
                    total,
                )
            },
            Err(e) => {
                &&& blocks_of(x@.len(), 256) * 210 > data@.len()
                &&& e.is_backend(
                    too_short("Q6_K dot"@, blocks_of(x@.len(), 256) * 210, data@.len()),
                )
            },
        },
{
    let row = weights("Q6_K dot", data, x.len())?;
    Ok(dot_in_quarters(zero, row.as_slice(), x, take_in))
}

} // verus!
