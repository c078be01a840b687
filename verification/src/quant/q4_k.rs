//! Q4_K dequantization.
//!
//! Block layout (144 bytes per block, 256 values per block), matching
//! llama.cpp `block_q4_K`:
//!
//!   struct block_q4_K {
//!       half d;             // super-block scale (2 bytes)
//!       half dmin;          // super-block minimum (2 bytes)
//!       uint8_t scales[12]; // packed sub-block scales and mins (12 bytes)
//!       uint8_t qs[128];    // 4-bit packed quants (256 values / 2 per byte)
//!   };
//!
//! Total: 2 + 2 + 12 + 128 = 144 bytes.
//!
//! Dequant formula: value = d * sc * quant - min * m
//! where quant is the 4-bit nibble (0..15).

use vstd::prelude::*;
use vstd::string::*;

use crate::error::Result;
use crate::quant::block::{
    block_count, blocks_of, check_length, half_at, high_nibble,
    low_nibble, quantized_elements, read_half, takes_in, too_short, Element, Weight,
};
use crate::quant::order::{adds, dot_in_lanes, is_lanes_dot};

verus! {

/// Elements of one block.
pub const BLOCK_SIZE: usize = 256;

/// Bytes of one block.
pub const BLOCK_BYTES: usize = 144;

/// Scale of the sub-block `j` in the 12 bytes of packed scales at `pos`: six
/// bits, those of the later sub-blocks in two parts.
pub open spec fn packed_scale(data: Seq<u8>, pos: int, j: int) -> int {
    if j < 4 {
        (data[pos + j] & 63) as int
    } else {
        low_nibble(data[pos + j + 4]) + 16 * (data[pos + j - 4] >> 6) as int
    }
}

/// Minimum of the sub-block `j` in the 12 bytes of packed scales at `pos`.
pub open spec fn packed_min(data: Seq<u8>, pos: int, j: int) -> int {
    if j < 4 {
        (data[pos + j + 4] & 63) as int
    } else {
        high_nibble(data[pos + j + 4]) + 16 * (data[pos + j] >> 6) as int
    }
}

/// Unpack the scale (`d`) and minimum (`m`) for sub-block index `j` (0..7)
/// from the 12-byte `scales` array. Matches llama.cpp `get_scale_min_k4`.
pub fn get_scale_min_k4(j: usize, scales: &[u8]) -> (r: (u8, u8))
    requires
        j < 8,
        scales@.len() >= 12,
    ensures
        r.0 == packed_scale(scales@, 0, j as int),
        r.1 == packed_min(scales@, 0, j as int),
        r.0 < 64,
        r.1 < 64,
{
    let len: usize = scales.len();
    assert(len >= 12);
    scale_min_at(scales, 0, j)
}

/// The scale and minimum of the sub-block `j`, from the packed scales at `pos`.
pub(crate) fn scale_min_at(data: &[u8], pos: usize, j: usize) -> (r: (u8, u8))
    requires
        j < 8,
        pos + 12 <= data@.len() <= usize::MAX,
    ensures
        r.0 == packed_scale(data@, pos as int, j as int),
        r.1 == packed_min(data@, pos as int, j as int),
        r.0 < 64,
        r.1 < 64,
{
    if j < 4 {
        let a: u8 = data[pos + j];
        let b: u8 = data[pos + j + 4];
        proof {
            assert((a & 63) < 64 && (b & 63) < 64) by (bit_vector);
        }
        (a & 63, b & 63)
    } else {
        let a: u8 = data[pos + j + 4];
        let b: u8 = data[pos + j - 4];
        let c: u8 = data[pos + j];
        proof {
            assert((a & 0xF) < 16 && (a >> 4) < 16 && (b >> 6) < 4 && (c >> 6) < 4) by (bit_vector);
        }
        ((a & 0xF) + 16 * (b >> 6), (a >> 4) + 16 * (c >> 6))
    }
}

/// The weight `r` of the block at `base`.
pub open spec fn weight_at(data: Seq<u8>, base: int, r: int) -> Weight {
    let byte = data[base + 16 + 32 * (r / 64) + r % 32];
    Weight {
        d: half_at(data, base),
        dmin: half_at(data, base + 2),
        scale: packed_scale(data, base + 4, r / 32) as i32,
        min: packed_min(data, base + 4, r / 32) as i32,
        quant: (if r % 64 < 32 {
            low_nibble(byte)
        } else {
            high_nibble(byte)
        }) as i32,
    }
}

/// The weight `i` of a row.
pub open spec fn weight(data: Seq<u8>, i: int) -> Weight {
    weight_at(data, 144 * (i / 256), i % 256)
}

/// The first `n` weights of a row.
pub open spec fn weights_of(data: Seq<u8>, n: nat) -> Seq<Weight> {
    Seq::new(n, |i: int| weight(data, i))
}

fn read_weight(data: &[u8], base: usize, r: usize, d: u16, dmin: u16) -> (w: Weight)
    requires
        r < 256,
        base + 144 <= data@.len() <= usize::MAX,
        d == half_at(data@, base as int),
        dmin == half_at(data@, base + 2),
    ensures
        w == weight_at(data@, base as int, r as int),
{
    let (scale, min) = scale_min_at(data, base + 4, r / 32);
    let byte: u8 = data[base + 16 + 32 * (r / 64) + r % 32];
    let quant: u8 = if r % 64 < 32 {
        byte & 0x0F
    } else {
        byte >> 4
    };
    Weight { d, dmin, scale: scale as i32, min: min as i32, quant: quant as i32 }
}

/// The whole numbers that the first `n` weights of a row are computed from.
pub fn dequant_q4_k(data: &[u8], n_elements: usize) -> (r: Result<Vec<Weight>>)
    requires
        blocks_of(n_elements as nat, 256) * 144 <= usize::MAX,
    ensures
        match r {
            Ok(ws) => {
                &&& blocks_of(n_elements as nat, 256) * 144 <= data@.len()
                &&& ws@ == weights_of(data@, n_elements as nat)
            },
            Err(e) => {
                &&& blocks_of(n_elements as nat, 256) * 144 > data@.len()
                &&& e.is_backend(
                    too_short(
                        "Q4_K dequant"@,
                        blocks_of(n_elements as nat, 256) * 144,
                        data@.len(),
                    ),
                )
            },
        },
{
    weights("Q4_K dequant", data, n_elements)
}

/// The whole numbers that the first `n` weights of a row are computed from;
/// `what` names the operation in the error.
pub fn weights(what: &str, data: &[u8], n: usize) -> (r: Result<Vec<Weight>>)
    requires
        blocks_of(n as nat, 256) * 144 <= usize::MAX,
    ensures
        match r {
            Ok(ws) => {
                &&& blocks_of(n as nat, 256) * 144 <= data@.len()
                &&& ws@ == weights_of(data@, n as nat)
            },
            Err(e) => {
                &&& blocks_of(n as nat, 256) * 144 > data@.len()
                &&& e.is_backend(
                    too_short(what@, blocks_of(n as nat, 256) * 144, data@.len()),
                )
            },
        },
{
    let n_blocks: usize = block_count(n, BLOCK_SIZE);
    check_length(what, n_blocks * BLOCK_BYTES, data.len())?;
    let mut out: Vec<Weight> = Vec::new();
    let mut b: usize = 0;
    while b < n_blocks
        invariant
            b <= n_blocks,
            n_blocks == blocks_of(n as nat, 256),
            n_blocks * 144 <= data@.len() <= usize::MAX,
            out@.len() == (if b < n_blocks {
                256 * b
            } else {
                n as int
            }),
            forall|i: int| 0 <= i < out@.len() ==> out@[i] == weight(data@, i),
        decreases n_blocks - b,
    {
        let base: usize = b * BLOCK_BYTES;
        let d: u16 = read_half(data, base);
        let dmin: u16 = read_half(data, base + 2);
        let mut r: usize = 0;
        while r < BLOCK_SIZE && out.len() < n
            invariant
                r <= BLOCK_SIZE,
                b < n_blocks,
                n_blocks == blocks_of(n as nat, 256),
                n_blocks * 144 <= data@.len() <= usize::MAX,
                base == b * 144,
                out@.len() == 256 * b + r,
                out@.len() <= n,
                forall|i: int| 0 <= i < out@.len() ==> out@[i] == weight(data@, i),
                d == half_at(data@, base as int),
                dmin == half_at(data@, base + 2),
            decreases BLOCK_SIZE - r,
        {
            out.push(read_weight(data, base, r, d, dmin));
            proof {
                let i = out@.len() - 1;
                assert(i / 256 == b && i % 256 == r);
            }
            r += 1;
        }
        b += 1;
    }
    proof {
        assert(out@ =~= weights_of(data@, n as nat));
    }
    Ok(out)
}

/// Fused Q4_K dequant + dot product: takes the weights of a row and the elements of
/// `x` into sums that begin with `zero`, by groups of lanes, which `plus` adds up.
pub fn dot_q4_k<A: Copy, F: Fn(A, Element, A) -> A, P: Fn(A, A) -> A>(
    data: &[u8],
    x: &[A],
    zero: A,
    take_in: &F,
    plus: &P,
) -> (r: Result<A>)
    requires
        blocks_of(x@.len(), 256) * 144 <= usize::MAX,
        takes_in(*take_in),
        adds(*plus),
    ensures
        match r {
            Ok(total) => {
                &&& blocks_of(x@.len(), 256) * 144 <= data@.len()
                &&& is_lanes_dot(
                    *take_in,
                    *plus,
                    zero,
                    quantized_elements(weights_of(data@, x@.len())),
                    x@,
                    total,
                )
            },
            Err(e) => {
                &&& blocks_of(x@.len(), 256) * 144 > data@.len()
                &&& e.is_backend(
                    too_short("Q4_K dot"@, blocks_of(x@.len(), 256) * 144, data@.len()),
                )
            },
        },
{
    let row = weights("Q4_K dot", data, x.len())?;
    Ok(dot_in_lanes(zero, row.as_slice(), x, take_in, plus))
}

} // verus!
