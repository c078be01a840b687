//! Q5_0 dequantization.
//!
//! Block layout (22 bytes per block, 32 values per block), matching
//! llama.cpp `block_q5_0`:
//!   bytes [0..2]   : half-precision scale (delta `d`)
//!   bytes [2..6]   : `qh` — 32 bits, the 5th (high) bit of each quant
//!   bytes [6..22]  : `qs` — 16 bytes, two 4-bit low nibbles per byte
//!
//! For j in 0..16:
//!   x0 = ((qs[j] & 0x0F) | bit(qh, j)      << 4) - 16   → weight j
//!   x1 = ((qs[j] >>   4) | bit(qh, j + 16) << 4) - 16   → weight j + 16
//!   value = x * d

use vstd::prelude::*;
use vstd::string::*;

use crate::error::Result;
use crate::quant::block::{
    bit, block_count, blocks_of, check_length, half_at, high_nibble, lemma_bit_ranges, low_nibble,
    read_half, too_short, Weight,
};

verus! {

/// Elements of one block.
pub const BLOCK_SIZE: usize = 32;

/// Bytes of one block.
pub const BLOCK_BYTES: usize = 22;

/// The weight `i` of a row.
pub open spec fn weight(data: Seq<u8>, i: int) -> Weight {
    let base = 22 * (i / 32);
    let r = i % 32;
    let low = if r < 16 {
        low_nibble(data[base + 6 + r])
    } else {
        high_nibble(data[base + 6 + r - 16])
    };
    let high = bit(data[base + 2 + r / 8], r % 8);
    Weight {
        d: half_at(data, base),
        dmin: 0,
        scale: 1,
        min: 0,
        quant: (low + 16 * high - 16) as i32,
    }
}

/// The first `n` weights of a row.
pub open spec fn weights_of(data: Seq<u8>, n: nat) -> Seq<Weight> {
    Seq::new(n, |i: int| weight(data, i))
}

/// The whole numbers that the first `n` weights of a row are computed from.
pub fn dequant_q5_0(data: &[u8], n_elements: usize) -> (r: Result<Vec<Weight>>)
    requires
        blocks_of(n_elements as nat, 32) * 22 <= usize::MAX,
    ensures
        match r {
            Ok(ws) => {
                &&& blocks_of(n_elements as nat, 32) * 22 <= data@.len()
                &&& ws@ == weights_of(data@, n_elements as nat)
            },
            Err(e) => {
                &&& blocks_of(n_elements as nat, 32) * 22 > data@.len()
                &&& e.is_backend(
                    too_short(
                        "Q5_0 dequant"@,
                        blocks_of(n_elements as nat, 32) * 22,
                        data@.len(),
                    ),
                )
            },
        },
{
    weights("Q5_0 dequant", data, n_elements)
}

/// The whole numbers that the first `n` weights of a row are computed from;
/// `what` names the operation in the error.
pub fn weights(what: &str, data: &[u8], n: usize) -> (r: Result<Vec<Weight>>)
    requires
        blocks_of(n as nat, 32) * 22 <= usize::MAX,
    ensures
        match r {
            Ok(ws) => {
                &&& blocks_of(n as nat, 32) * 22 <= data@.len()
                &&& ws@ == weights_of(data@, n as nat)
            },
            Err(e) => {
                &&& blocks_of(n as nat, 32) * 22 > data@.len()
                &&& e.is_backend(
                    too_short(what@, blocks_of(n as nat, 32) * 22, data@.len()),
                )
            },
        },
{
    let n_blocks: usize = block_count(n, BLOCK_SIZE);
    check_length(what, n_blocks * BLOCK_BYTES, data.len())?;
    let mut out: Vec<Weight> = Vec::new();
    let mut b: usize = 0;
    while b < n_blocks
        invariant
            b <= n_blocks,
            n_blocks == blocks_of(n as nat, 32),
            n_blocks * 22 <= data@.len() <= usize::MAX,
            out@.len() == (if b < n_blocks {
                32 * b
            } else {
                n as int
            }),
            forall|i: int| 0 <= i < out@.len() ==> out@[i] == weight(data@, i),
        decreases n_blocks - b,
    {
        let base: usize = b * BLOCK_BYTES;
        let d: u16 = read_half(data, base);
        let mut r: usize = 0;
        while r < BLOCK_SIZE && out.len() < n
            invariant
                r <= BLOCK_SIZE,
                b < n_blocks,
                n_blocks == blocks_of(n as nat, 32),
                n_blocks * 22 <= data@.len() <= usize::MAX,
                base == b * 22,
                out@.len() == 32 * b + r,
                out@.len() <= n,
                forall|i: int| 0 <= i < out@.len() ==> out@[i] == weight(data@, i),
                d == half_at(data@, base as int),
            decreases BLOCK_SIZE - r,
        {
            let low: u8 = if r < 16 {
                data[base + 6 + r] & 0x0F
            } else {
                data[base + 6 + r - 16] >> 4
            };
            let k: u8 = (r % 8) as u8;
            let high: u8 = (data[base + 2 + r / 8] >> k) & 1;
            proof {
                lemma_bit_ranges(data@[base + 6 + r % 16], 0);
                lemma_bit_ranges(data@[base + 2 + (r / 8) as int], k);
            }
            let quant: i32 = low as i32 + 16 * high as i32 - 16;
            out.push(Weight { d, dmin: 0, scale: 1, min: 0, quant });
            r += 1;
        }
        b += 1;
    }
    proof {
        assert(out@ =~= weights_of(data@, n as nat));
    }
    Ok(out)
}

} // verus!
