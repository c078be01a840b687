//! Q2_K dequantization.
//!
//! Block layout (84 bytes per 256 elements = 2.625 bits/weight):
//!
//! ```c
//! typedef struct {
//!     uint8_t scales[QK_K/16]; // 16 bytes: scales and mins, 4 bits each
//!     uint8_t qs[QK_K/4];     // 64 bytes: 2-bit quantized values
//!     ggml_half d;             // 2 bytes: super-block scale
//!     ggml_half dmin;          // 2 bytes: super-block min scale
//! } block_q2_K;
//! ```
//!
//! Each super-block (256 elements) is split into 2 groups of 128.
//! Each group has 4 runs of 32 values, which take the bit pairs 0, 2, 4 and 6 of
//! the group's 32 bytes of `qs`. Each 16 values have a scale (low nibble) and a
//! minimum (high nibble).

use vstd::prelude::*;
use vstd::string::*;

use crate::error::{GgufError, Result};
use crate::quant::block::{
    bit_pair, half_at, high_nibble, lemma_bit_ranges, low_nibble, read_half, Weight,
};
use crate::text::{decimal, push_decimal};

verus! {

/// Elements of one super-block.
pub const QK_K: usize = 256;

/// Byte size of one Q2_K super-block: scales, qs, d, dmin.
pub const BLOCK_BYTES: usize = 84;

/// The weight `r` of the block at `base`.
pub open spec fn weight_at(data: Seq<u8>, base: int, r: int) -> Weight {
    let packed = data[base + r / 16];
    Weight {
        d: half_at(data, base + 80),
        dmin: half_at(data, base + 82),
        scale: low_nibble(packed) as i32,
        min: high_nibble(packed) as i32,
        quant: bit_pair(data[base + 16 + 32 * (r / 128) + r % 32], 2 * ((r % 128) / 32)) as i32,
    }
}

/// The weight `i` of a row.
pub open spec fn weight(data: Seq<u8>, i: int) -> Weight {
    weight_at(data, 84 * (i / 256), i % 256)
}

/// The first `n` weights of a row.
pub open spec fn weights_of(data: Seq<u8>, n: nat) -> Seq<Weight> {
    Seq::new(n, |i: int| weight(data, i))
}

/// The message for a row that does not end with a block.
pub open spec fn ragged(row_len: nat) -> Seq<char> {
    "Q2_K row length "@ + decimal(row_len) + " is not a multiple of 256"@
}

/// The message for data that is shorter than the row.
pub open spec fn short(needed: nat, have: nat) -> Seq<char> {
    "Q2_K data too short: need "@ + decimal(needed) + " bytes, have "@ + decimal(have)
}

fn read_weight(data: &[u8], base: usize, r: usize, d: u16, dmin: u16) -> (w: Weight)
    requires
        r < 256,
        base + 84 <= data@.len() <= usize::MAX,
        d == half_at(data@, base + 80),
        dmin == half_at(data@, base + 82),
    ensures
        w == weight_at(data@, base as int, r as int),
{
    let packed: u8 = data[base + r / 16];
    let byte: u8 = data[base + 16 + 32 * (r / 128) + r % 32];
    let k: u8 = 2 * ((r % 128) / 32) as u8;
    let quant: u8 = (byte >> k) & 3;
    proof {
        lemma_bit_ranges(packed, 0);
        lemma_bit_ranges(byte, k);
    }
    Weight {
        d,
        dmin,
        scale: (packed & 0x0F) as i32,
        min: (packed >> 4) as i32,
        quant: quant as i32,
    }
}

/// The whole numbers that the weights of a row of Q2_K data are computed from.
///
/// `data` starts at the beginning of the row's Q2_K blocks.
/// `row_len` is the number of elements in the row (must be a multiple of 256).
pub fn dequant_q2_k(data: &[u8], row_len: usize) -> (r: Result<Vec<Weight>>)
    ensures
        match r {
            Ok(ws) => {
                &&& row_len % 256 == 0
                &&& 84 * (row_len / 256) <= data@.len()
                &&& ws@ == weights_of(data@, row_len as nat)
            },
            Err(e) => if row_len % 256 != 0 {
                e.is_backend(ragged(row_len as nat))
            } else {
                &&& 84 * (row_len / 256) > data@.len()
                &&& e.is_backend(short(84 * (row_len as nat / 256), data@.len()))
            },
        },
{
    if row_len % QK_K != 0 {
        let mut s = "Q2_K row length ".to_owned();
        push_decimal(&mut s, row_len as u64);
        s.append(" is not a multiple of 256");
        return Err(GgufError::BackendError(s));
    }
    let nb: usize = row_len / QK_K;
    let expected_bytes: usize = nb * BLOCK_BYTES;
    if data.len() < expected_bytes {
        let mut s = "Q2_K data too short: need ".to_owned();
        push_decimal(&mut s, expected_bytes as u64);
        s.append(" bytes, have ");
        push_decimal(&mut s, data.len() as u64);
        return Err(GgufError::BackendError(s));
    }
    let mut out: Vec<Weight> = Vec::new();
    let mut b: usize = 0;
    while b < nb
        invariant
            b <= nb,
            nb * 84 <= data@.len() <= usize::MAX,
            out@.len() == 256 * b,
            forall|i: int| 0 <= i < out@.len() ==> out@[i] == weight(data@, i),
        decreases nb - b,
    {
        let base: usize = b * BLOCK_BYTES;
        let d: u16 = read_half(data, base + 80);
        let dmin: u16 = read_half(data, base + 82);
        let mut r: usize = 0;
        while r < QK_K
            invariant
                r <= QK_K,
                b < nb,
                nb * 84 <= data@.len() <= usize::MAX,
                base == b * 84,
                d == half_at(data@, base + 80),
                dmin == half_at(data@, base + 82),
                out@.len() == 256 * b + r,
                forall|i: int| 0 <= i < out@.len() ==> out@[i] == weight(data@, i),
            decreases QK_K - r,
        {
            out.push(read_weight(data, base, r, d, dmin));
            proof {
                let i = out@.len() - 1;
                assert(i / 256 == b && i % 256 == r);
            }
            r += 1;
        }
        b += 1;
    }
    proof {
        assert(out@ =~= weights_of(data@, row_len as nat));
    }
    Ok(out)
}

} // verus!
