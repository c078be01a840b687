//! How quantized rows are written: the bytes of a block from the whole numbers that it
//! stores, by the layouts of the formats. What is decoded from a row are the numbers that
//! were packed into it.

use vstd::prelude::*;

use crate::quant::block::{bit, bit_pair, half_at, high_nibble, low_nibble, Element, Weight};
use crate::parser::number_at;
use crate::quant::elements_of;
use crate::types::GgmlType;

verus! {

/// What a block stores: scales and minimums of its parts, and the quants as they are
/// written, without the offset that a format takes off them.
pub struct Block {
    pub d: u16,
    pub dmin: u16,
    pub scales: Seq<int>,
    pub mins: Seq<int>,
    pub quants: Seq<int>,
}

/// Whether there are `n` numbers, from zero on and below `bound`.
pub open spec fn within(s: Seq<int>, n: nat, bound: int) -> bool {
    s.len() == n && forall|i: int| 0 <= i < n ==> 0 <= #[trigger] s[i] < bound
}

/// The two bytes of a half-precision number, the lower one first.
pub open spec fn half_bytes(h: u16) -> Seq<u8> {
    seq![(h % 256) as u8, (h / 256) as u8]
}

/// A byte of two numbers of four bits.
pub open spec fn two(low: int, high: int) -> u8 {
    (low + 16 * high) as u8
}

/// A byte of four numbers of two bits.
pub open spec fn four(a: int, b: int, c: int, d: int) -> u8 {
    (a + 4 * b + 16 * c + 64 * d) as u8
}

/// A byte of eight bits, the first of which counts one.
pub open spec fn eight(s: Seq<int>) -> u8 {
    (s[0] + 2 * s[1] + 4 * s[2] + 8 * s[3] + 16 * s[4] + 32 * s[5] + 64 * s[6] + 128 * s[7]) as u8
}

/// Whether data is made of blocks of `size` bytes, one after the other, which hold what
/// `bytes` makes of what they store.
pub open spec fn written(
    data: Seq<u8>,
    blocks: Seq<Block>,
    size: nat,
    bytes: spec_fn(Block) -> Seq<u8>,
) -> bool {
    &&& data.len() == size * blocks.len()
    &&& forall|b: int|
        0 <= b < blocks.len() ==> data.subrange(size * b, size * b + size) == bytes(
            #[trigger] blocks[b],
        )
}

// ── The layouts ─────────────────────────────────────────────────────────────

/// Eight scales and eight minimums of six bits in twelve bytes: the first four of each
/// whole, the others in the lower nibbles and the upper nibbles of the last four bytes,
/// with their two highest bits on top of the first ones.
pub open spec fn scale_bytes(scales: Seq<int>, mins: Seq<int>) -> Seq<u8> {
    Seq::new(4, |j: int| (scales[j] + 64 * (scales[j + 4] / 16)) as u8) + Seq::new(
        4,
        |j: int| (mins[j] + 64 * (mins[j + 4] / 16)) as u8,
    ) + Seq::new(4, |j: int| two(scales[j + 4] % 16, mins[j + 4] % 16))
}

/// 256 quants, of which each 64 take 32 bytes: the lower nibbles of them hold the first
/// 32, the upper ones the next 32.
pub open spec fn nibble_bytes(quants: Seq<int>) -> Seq<u8> {
    Seq::new(
        128,
        |p: int|
            two(
                quants[64 * (p / 32) + p % 32] % 16,
                quants[64 * (p / 32) + 32 + p % 32] % 16,
            ),
    )
}

/// What a block of Q4_K can store.
pub open spec fn fits_q4_k(b: Block) -> bool {
    within(b.scales, 8, 64) && within(b.mins, 8, 64) && within(b.quants, 256, 16)
}

/// A block of Q4_K.
pub open spec fn q4_k_bytes(b: Block) -> Seq<u8> {
    half_bytes(b.d) + half_bytes(b.dmin) + scale_bytes(b.scales, b.mins) + nibble_bytes(b.quants)
}

/// What a block of Q5_K can store.
pub open spec fn fits_q5_k(b: Block) -> bool {
    within(b.scales, 8, 64) && within(b.mins, 8, 64) && within(b.quants, 256, 32)
}

/// A block of Q5_K: the fifth bits of each 32 quants stand at one place of 32 bytes.
pub open spec fn q5_k_bytes(b: Block) -> Seq<u8> {
    half_bytes(b.d) + half_bytes(b.dmin) + scale_bytes(b.scales, b.mins) + Seq::new(
        32,
        |l: int| eight(Seq::new(8, |k: int| b.quants[32 * k + l] / 16)),
    ) + nibble_bytes(b.quants)
}

/// What a block of Q6_K can store: the scales are signed.
pub open spec fn fits_q6_k(b: Block) -> bool {
    &&& b.scales.len() == 16
    &&& forall|j: int| 0 <= j < 16 ==> -128 <= #[trigger] b.scales[j] < 128
    &&& within(b.quants, 256, 64)
}

/// A signed number as a byte.
pub open spec fn signed_as_byte(v: int) -> u8 {
    (if v < 0 {
        v + 256
    } else {
        v
    }) as u8
}

/// A block of Q6_K: of each 128 quants the lower nibbles of 64 bytes hold the first 64,
/// the upper ones the last 64; four high parts of two bits share a byte.
pub open spec fn q6_k_bytes(b: Block) -> Seq<u8> {
    Seq::new(
        128,
        |p: int|
            two(
                b.quants[128 * (p / 64) + p % 64] % 16,
                b.quants[128 * (p / 64) + 64 + p % 64] % 16,
            ),
    ) + Seq::new(
        64,
        |p: int|
            four(
                b.quants[128 * (p / 32) + p % 32] / 16,
                b.quants[128 * (p / 32) + 32 + p % 32] / 16,
                b.quants[128 * (p / 32) + 64 + p % 32] / 16,
                b.quants[128 * (p / 32) + 96 + p % 32] / 16,
            ),
    ) + Seq::new(16, |j: int| signed_as_byte(b.scales[j])) + half_bytes(b.d)
}

/// What a block of Q2_K can store.
pub open spec fn fits_q2_k(b: Block) -> bool {
    within(b.scales, 16, 16) && within(b.mins, 16, 16) && within(b.quants, 256, 4)
}

/// A block of Q2_K: a byte holds four quants that are 32 places apart.
pub open spec fn q2_k_bytes(b: Block) -> Seq<u8> {
    Seq::new(16, |j: int| two(b.scales[j], b.mins[j])) + Seq::new(
        64,
        |p: int|
            four(
                b.quants[128 * (p / 32) + p % 32],
                b.quants[128 * (p / 32) + 32 + p % 32],
                b.quants[128 * (p / 32) + 64 + p % 32],
                b.quants[128 * (p / 32) + 96 + p % 32],
            ),
    ) + half_bytes(b.d) + half_bytes(b.dmin)
}

/// What a block of Q5_0 can store.
pub open spec fn fits_q5_0(b: Block) -> bool {
    within(b.quants, 32, 32)
}

/// A block of Q5_0: the fifth bits of the 32 quants in turn, and the lower nibbles of the
/// first half beside those of the second.
pub open spec fn q5_0_bytes(b: Block) -> Seq<u8> {
    half_bytes(b.d) + Seq::new(
        4,
        |j: int| eight(Seq::new(8, |k: int| b.quants[8 * j + k] / 16)),
    ) + Seq::new(16, |j: int| two(b.quants[j] % 16, b.quants[j + 16] % 16))
}

/// What a block of Q8_0 can store: the quants are signed.
pub open spec fn fits_q8_0(b: Block) -> bool {
    &&& b.quants.len() == 32
    &&& forall|j: int| 0 <= j < 32 ==> -128 <= #[trigger] b.quants[j] < 128
}

/// A block of Q8_0.
pub open spec fn q8_0_bytes(b: Block) -> Seq<u8> {
    half_bytes(b.d) + Seq::new(32, |j: int| signed_as_byte(b.quants[j]))
}

// ── Taking bytes apart ──────────────────────────────────────────────────────

proof fn lemma_two_bits(x: u8, a: u8, b: u8)
    by (bit_vector)
    requires
        a < 16,
        b < 16,
        x == a + 16 * b,
    ensures
        x & 0x0F == a,
        x >> 4 == b,
{
}

proof fn lemma_two(a: int, b: int)
    requires
        0 <= a < 16,
        0 <= b < 16,
    ensures
        low_nibble(two(a, b)) == a,
        high_nibble(two(a, b)) == b,
{
    lemma_two_bits(two(a, b), a as u8, b as u8);
}

proof fn lemma_six_bits(x: u8, a: u8, b: u8)
    by (bit_vector)
    requires
        a < 64,
        b < 4,
        x == a + 64 * b,
    ensures
        x & 63 == a,
        x >> 6 == b,
{
}

proof fn lemma_four_bits(x: u8, a: u8, b: u8, c: u8, d: u8)
    by (bit_vector)
    requires
        a < 4,
        b < 4,
        c < 4,
        d < 4,
        x == a + 4 * b + 16 * c + 64 * d,
    ensures
        (x >> 0u8) & 3 == a,
        (x >> 2u8) & 3 == b,
        (x >> 4u8) & 3 == c,
        (x >> 6u8) & 3 == d,
{
}

proof fn lemma_four(a: int, b: int, c: int, d: int)
    requires
        0 <= a < 4,
        0 <= b < 4,
        0 <= c < 4,
        0 <= d < 4,
    ensures
        bit_pair(four(a, b, c, d), 0) == a,
        bit_pair(four(a, b, c, d), 2) == b,
        bit_pair(four(a, b, c, d), 4) == c,
        bit_pair(four(a, b, c, d), 6) == d,
{
    lemma_four_bits(four(a, b, c, d), a as u8, b as u8, c as u8, d as u8);
}

proof fn lemma_eight_bits(
    x: u8,
    a: u8,
    b: u8,
    c: u8,
    d: u8,
    e: u8,
    f: u8,
    g: u8,
    h: u8,
)
    by (bit_vector)
    requires
        a < 2,
        b < 2,
        c < 2,
        d < 2,
        e < 2,
        f < 2,
        g < 2,
        h < 2,
        x == a + 2 * b + 4 * c + 8 * d + 16 * e + 32 * f + 64 * g + 128 * h,
    ensures
        (x >> 0u8) & 1 == a,
        (x >> 1u8) & 1 == b,
        (x >> 2u8) & 1 == c,
        (x >> 3u8) & 1 == d,
        (x >> 4u8) & 1 == e,
        (x >> 5u8) & 1 == f,
        (x >> 6u8) & 1 == g,
        (x >> 7u8) & 1 == h,
{
}

proof fn lemma_eight(s: Seq<int>, k: int)
    requires
        within(s, 8, 2),
        0 <= k < 8,
    ensures
        bit(eight(s), k) == s[k],
{
    lemma_eight_bits(
        eight(s),
        s[0] as u8,
        s[1] as u8,
        s[2] as u8,
        s[3] as u8,
        s[4] as u8,
        s[5] as u8,
        s[6] as u8,
        s[7] as u8,
    );
}

/// Where the bytes of a block stand in the data.
proof fn lemma_written(
    data: Seq<u8>,
    blocks: Seq<Block>,
    size: nat,
    bytes: spec_fn(Block) -> Seq<u8>,
    b: int,
    k: int,
)
    requires
        written(data, blocks, size, bytes),
        0 <= b < blocks.len(),
        0 <= k < size,
    ensures
        0 <= size * b,
        size * b + k < data.len(),
        data[size * b + k] == bytes(blocks[b])[k],
{
    assert(0 <= size * b && size * b + size <= size * blocks.len()) by (nonlinear_arith)
        requires
            0 <= b,
            b + 1 <= blocks.len(),
            0 <= size,
    ;
    assert(data.subrange(size * b, size * b + size)[k] == bytes(blocks[b])[k]);
}

/// A half-precision number that two bytes of a block hold.
proof fn lemma_half(
    data: Seq<u8>,
    blocks: Seq<Block>,
    size: nat,
    bytes: spec_fn(Block) -> Seq<u8>,
    b: int,
    k: int,
    h: u16,
)
    requires
        written(data, blocks, size, bytes),
        0 <= b < blocks.len(),
        0 <= k,
        k + 1 < size,
        bytes(blocks[b])[k] == half_bytes(h)[0],
        bytes(blocks[b])[k + 1] == half_bytes(h)[1],
    ensures
        half_at(data, size * b + k) == h,
{
    lemma_written(data, blocks, size, bytes, b, k);
    lemma_written(data, blocks, size, bytes, b, k + 1);
    reveal_with_fuel(number_at, 3);
    assert(number_at(data, size * b + k, 2) == h % 256 + 256 * (h / 256));
}

proof fn lemma_scales(data: Seq<u8>, pos: int, scales: Seq<int>, mins: Seq<int>, j: int)
    requires
        within(scales, 8, 64),
        within(mins, 8, 64),
        0 <= j < 8,
        forall|k: int| 0 <= k < 12 ==> data[pos + k] == #[trigger] scale_bytes(scales, mins)[k],
    ensures
        crate::quant::q4_k::packed_scale(data, pos, j) == scales[j],
        crate::quant::q4_k::packed_min(data, pos, j) == mins[j],
{
    let all = scale_bytes(scales, mins);
    let i = if j < 4 {
        j
    } else {
        j - 4
    };
    assert(0 <= scales[i] < 64 && 0 <= scales[i + 4] < 64);
    assert(0 <= mins[i] < 64 && 0 <= mins[i + 4] < 64);
    assert(data[pos + i] == all[i]);
    assert(data[pos + (i + 4)] == all[i + 4]);
    assert(data[pos + (i + 8)] == all[i + 8]);
    lemma_six_bits(all[i], scales[i] as u8, (scales[i + 4] / 16) as u8);
    lemma_six_bits(all[i + 4], mins[i] as u8, (mins[i + 4] / 16) as u8);
    lemma_two(scales[i + 4] % 16, mins[i + 4] % 16);
    assert(pos + j - 4 + 8 == pos + (j + 4));
}

// ── What is decoded ─────────────────────────────────────────────────────────

/// The weights of a Q4_K row are those that were packed into it: every 32 share a scale
/// and a minimum, and of every 64 the first 32 come from the lower nibbles.
pub proof fn law_q4_k_undoes_packing(data: Seq<u8>, blocks: Seq<Block>, n: nat, i: int)
    requires
        written(data, blocks, 144, |b: Block| q4_k_bytes(b)),
        forall|b: int| 0 <= b < blocks.len() ==> fits_q4_k(#[trigger] blocks[b]),
        0 <= i < n <= 256 * blocks.len(),
    ensures
        ({
            let b = blocks[i / 256];
            elements_of(GgmlType::Q4_K, data, n)[i] == Element::Quantized(
                Weight {
                    d: b.d,
                    dmin: b.dmin,
                    scale: b.scales[i % 256 / 32] as i32,
                    min: b.mins[i % 256 / 32] as i32,
                    quant: b.quants[i % 256] as i32,
                },
            )
        }),
{
    let at = |b: Block| q4_k_bytes(b);
    let (q, r) = (i / 256, i % 256);
    let b = blocks[q];
    let all = q4_k_bytes(b);
    lemma_half(data, blocks, 144, at, q, 0, b.d);
    lemma_half(data, blocks, 144, at, q, 2, b.dmin);
    assert forall|k: int| 0 <= k < 12 implies data[144 * q + 4 + k] == #[trigger] scale_bytes(
        b.scales,
        b.mins,
    )[k] by {
        lemma_written(data, blocks, 144, at, q, 4 + k);
    }
    lemma_scales(data, 144 * q + 4, b.scales, b.mins, r / 32);
    let p = 32 * (r / 64) + r % 32;
    lemma_written(data, blocks, 144, at, q, 16 + p);
    assert(all[16 + p] == nibble_bytes(b.quants)[p]);
    let g = 64 * (p / 32) + p % 32;
    assert(0 <= b.quants[g] < 16 && 0 <= b.quants[g + 32] < 16);
    lemma_two(b.quants[g], b.quants[g + 32]);
    assert(r == if r % 64 < 32 { g } else { g + 32 });
}

/// The weights of a Q5_K row are those that were packed into it.
pub proof fn law_q5_k_undoes_packing(data: Seq<u8>, blocks: Seq<Block>, n: nat, i: int)
    requires
        written(data, blocks, 176, |b: Block| q5_k_bytes(b)),
        forall|b: int| 0 <= b < blocks.len() ==> fits_q5_k(#[trigger] blocks[b]),
        0 <= i < n <= 256 * blocks.len(),
    ensures
        ({
            let b = blocks[i / 256];
            elements_of(GgmlType::Q5_K, data, n)[i] == Element::Quantized(
                Weight {
                    d: b.d,
                    dmin: b.dmin,
                    scale: b.scales[i % 256 / 32] as i32,
                    min: b.mins[i % 256 / 32] as i32,
                    quant: b.quants[i % 256] as i32,
                },
            )
        }),
{
    let at = |b: Block| q5_k_bytes(b);
    let (q, r) = (i / 256, i % 256);
    let b = blocks[q];
    let all = q5_k_bytes(b);
    lemma_half(data, blocks, 176, at, q, 0, b.d);
    lemma_half(data, blocks, 176, at, q, 2, b.dmin);
    assert forall|k: int| 0 <= k < 12 implies data[176 * q + 4 + k] == #[trigger] scale_bytes(
        b.scales,
        b.mins,
    )[k] by {
        lemma_written(data, blocks, 176, at, q, 4 + k);
    }
    lemma_scales(data, 176 * q + 4, b.scales, b.mins, r / 32);
    let p = 32 * (r / 64) + r % 32;
    lemma_written(data, blocks, 176, at, q, 48 + p);
    assert(all[48 + p] == nibble_bytes(b.quants)[p]);
    let g = 64 * (p / 32) + p % 32;
    assert(0 <= b.quants[g] < 32 && 0 <= b.quants[g + 32] < 32);
    lemma_two(b.quants[g] % 16, b.quants[g + 32] % 16);
    let l = r % 32;
    let fifth = Seq::new(8, |k: int| b.quants[32 * k + l] / 16);
    lemma_written(data, blocks, 176, at, q, 16 + l);
    assert(all[16 + l] == eight(fifth));
    assert forall|k: int| 0 <= k < 8 implies 0 <= #[trigger] fifth[k] < 2 by {
        assert(0 <= b.quants[32 * k + l] < 32);
    }
    lemma_eight(fifth, r / 32);
    assert(r == if r % 64 < 32 { g } else { g + 32 });
    assert(32 * (r / 32) + l == r);
}

/// Where the parts of a quant of Q6_K stand.
proof fn lemma_q6_k_places(r: int)
    requires
        0 <= r < 256,
    ensures
        8 * (r / 128) + 2 * ((r % 128) / 32) + (r % 32) / 16 == r / 16,
        64 * (r / 128) + 32 * (((r % 128) / 32) % 2) + r % 32 == 64 * (r / 128) + r % 64,
        (64 * (r / 128) + r % 64) / 64 == r / 128,
        (64 * (r / 128) + r % 64) % 64 == r % 64,
        r % 128 < 64 ==> r == 128 * (r / 128) + r % 64,
        r % 128 >= 64 ==> r == 128 * (r / 128) + 64 + r % 64,
        (32 * (r / 128) + r % 32) / 32 == r / 128,
        (32 * (r / 128) + r % 32) % 32 == r % 32,
        r == 128 * (r / 128) + 32 * ((r % 128) / 32) + r % 32,
        (r % 128) / 32 < 2 <==> r % 128 < 64,
{
}

/// The weights of a Q6_K row are those that were packed into it: every 16 share a signed
/// scale, and 32 is taken off the quants.
pub proof fn law_q6_k_undoes_packing(data: Seq<u8>, blocks: Seq<Block>, n: nat, i: int)
    requires
        written(data, blocks, 210, |b: Block| q6_k_bytes(b)),
        forall|b: int| 0 <= b < blocks.len() ==> fits_q6_k(#[trigger] blocks[b]),
        0 <= i < n <= 256 * blocks.len(),
    ensures
        ({
            let b = blocks[i / 256];
            elements_of(GgmlType::Q6_K, data, n)[i] == Element::Quantized(
                Weight {
                    d: b.d,
                    dmin: 0,
                    scale: b.scales[i % 256 / 16] as i32,
                    min: 0,
                    quant: (b.quants[i % 256] - 32) as i32,
                },
            )
        }),
{
    let at = |b: Block| q6_k_bytes(b);
    let (q, r) = (i / 256, i % 256);
    let b = blocks[q];
    let all = q6_k_bytes(b);
    lemma_half(data, blocks, 210, at, q, 208, b.d);
    lemma_written(data, blocks, 210, at, q, 192 + r / 16);
    assert(all[192 + r / 16] == signed_as_byte(b.scales[r / 16]));
    lemma_q6_k_places(r);
    let (half, l) = (r / 128, r % 32);
    let p = 64 * half + r % 64;
    lemma_written(data, blocks, 210, at, q, p);
    let g = 128 * half + r % 64;
    assert(0 <= b.quants[g] < 64 && 0 <= b.quants[g + 64] < 64);
    assert(all[p] == two(b.quants[g] % 16, b.quants[g + 64] % 16));
    lemma_two(b.quants[g] % 16, b.quants[g + 64] % 16);
    let h = 32 * half + l;
    lemma_written(data, blocks, 210, at, q, 128 + h);
    let c = 128 * half + l;
    assert(0 <= b.quants[c] < 64 && 0 <= b.quants[c + 32] < 64);
    assert(0 <= b.quants[c + 64] < 64 && 0 <= b.quants[c + 96] < 64);
    assert(all[128 + h] == four(
        b.quants[c] / 16,
        b.quants[c + 32] / 16,
        b.quants[c + 64] / 16,
        b.quants[c + 96] / 16,
    ));
    lemma_four(
        b.quants[c] / 16,
        b.quants[c + 32] / 16,
        b.quants[c + 64] / 16,
        b.quants[c + 96] / 16,
    );
    let quarter = (r % 128) / 32;
    assert(quarter == 0 || quarter == 1 || quarter == 2 || quarter == 3);
    assert(crate::quant::q6_k::quant_at(data, 210 * q, r) == b.quants[r] - 32);
}

/// The weights of a Q2_K row are those that were packed into it: every 16 share a scale
/// and a minimum.
pub proof fn law_q2_k_undoes_packing(data: Seq<u8>, blocks: Seq<Block>, n: nat, i: int)
    requires
        written(data, blocks, 84, |b: Block| q2_k_bytes(b)),
        forall|b: int| 0 <= b < blocks.len() ==> fits_q2_k(#[trigger] blocks[b]),
        0 <= i < n <= 256 * blocks.len(),
    ensures
        ({
            let b = blocks[i / 256];
            elements_of(GgmlType::Q2_K, data, n)[i] == Element::Quantized(
                Weight {
                    d: b.d,
                    dmin: b.dmin,
                    scale: b.scales[i % 256 / 16] as i32,
                    min: b.mins[i % 256 / 16] as i32,
                    quant: b.quants[i % 256] as i32,
                },
            )
        }),
{
    let at = |b: Block| q2_k_bytes(b);
    let (q, r) = (i / 256, i % 256);
    let b = blocks[q];
    let all = q2_k_bytes(b);
    lemma_half(data, blocks, 84, at, q, 80, b.d);
    lemma_half(data, blocks, 84, at, q, 82, b.dmin);
    lemma_written(data, blocks, 84, at, q, r / 16);
    assert(0 <= b.scales[r / 16] < 16 && 0 <= b.mins[r / 16] < 16);
    assert(all[r / 16] == two(b.scales[r / 16], b.mins[r / 16]));
    lemma_two(b.scales[r / 16], b.mins[r / 16]);
    let p = 32 * (r / 128) + r % 32;
    lemma_written(data, blocks, 84, at, q, 16 + p);
    let c = 128 * (r / 128) + r % 32;
    assert(0 <= b.quants[c] < 4 && 0 <= b.quants[c + 32] < 4);
    assert(0 <= b.quants[c + 64] < 4 && 0 <= b.quants[c + 96] < 4);
    assert(all[16 + p] == four(
        b.quants[c],
        b.quants[c + 32],
        b.quants[c + 64],
        b.quants[c + 96],
    ));
    lemma_four(b.quants[c], b.quants[c + 32], b.quants[c + 64], b.quants[c + 96]);
    assert(r == c + 32 * ((r % 128) / 32));
}

/// The weights of a Q5_0 row are those that were packed into it, with 16 taken off.
pub proof fn law_q5_0_undoes_packing(data: Seq<u8>, blocks: Seq<Block>, n: nat, i: int)
    requires
        written(data, blocks, 22, |b: Block| q5_0_bytes(b)),
        forall|b: int| 0 <= b < blocks.len() ==> fits_q5_0(#[trigger] blocks[b]),
        0 <= i < n <= 32 * blocks.len(),
    ensures
        elements_of(GgmlType::Q5_0, data, n)[i] == Element::Quantized(
            Weight {
                d: blocks[i / 32].d,
                dmin: 0,
                scale: 1,
                min: 0,
                quant: (blocks[i / 32].quants[i % 32] - 16) as i32,
            },
        ),
{
    let at = |b: Block| q5_0_bytes(b);
    let (q, r) = (i / 32, i % 32);
    let b = blocks[q];
    let all = q5_0_bytes(b);
    lemma_half(data, blocks, 22, at, q, 0, b.d);
    let j = r % 16;
    lemma_written(data, blocks, 22, at, q, 6 + j);
    assert(0 <= b.quants[j] < 32 && 0 <= b.quants[j + 16] < 32);
    assert(all[6 + j] == two(b.quants[j] % 16, b.quants[j + 16] % 16));
    lemma_two(b.quants[j] % 16, b.quants[j + 16] % 16);
    let fifth = Seq::new(8, |k: int| b.quants[8 * (r / 8) + k] / 16);
    lemma_written(data, blocks, 22, at, q, 2 + r / 8);
    assert(all[2 + r / 8] == eight(fifth));
    assert forall|k: int| 0 <= k < 8 implies 0 <= #[trigger] fifth[k] < 2 by {
        assert(0 <= b.quants[8 * (r / 8) + k] < 32);
    }
    lemma_eight(fifth, r % 8);
    assert(8 * (r / 8) + r % 8 == r);
}

/// The weights of a Q8_0 row are those that were packed into it.
pub proof fn law_q8_0_undoes_packing(data: Seq<u8>, blocks: Seq<Block>, n: nat, i: int)
    requires
        written(data, blocks, 34, |b: Block| q8_0_bytes(b)),
        forall|b: int| 0 <= b < blocks.len() ==> fits_q8_0(#[trigger] blocks[b]),
        0 <= i < n <= 32 * blocks.len(),
    ensures
        elements_of(GgmlType::Q8_0, data, n)[i] == Element::Quantized(
            Weight {
                d: blocks[i / 32].d,
                dmin: 0,
                scale: 1,
                min: 0,
                quant: blocks[i / 32].quants[i % 32] as i32,
            },
        ),
{
    let at = |b: Block| q8_0_bytes(b);
    let (q, r) = (i / 32, i % 32);
    let b = blocks[q];
    lemma_half(data, blocks, 34, at, q, 0, b.d);
    lemma_written(data, blocks, 34, at, q, 2 + r);
    assert(q8_0_bytes(b)[2 + r] == signed_as_byte(b.quants[r]));
}

/// The bytes of numbers of `size` bytes each, the lowest byte of each first.
pub open spec fn numbers_bytes(values: Seq<nat>, size: nat) -> Seq<u8> {
    Seq::new(
        values.len() * size,
        |p: int|
            if size == 2 {
                if p % 2 == 0 {
                    (values[p / 2] % 256) as u8
                } else {
                    (values[p / 2] / 256) as u8
                }
            } else {
                if p % 4 == 0 {
                    (values[p / 4] % 256) as u8
                } else if p % 4 == 1 {
                    (values[p / 4] / 256 % 256) as u8
                } else if p % 4 == 2 {
                    (values[p / 4] / 65536 % 256) as u8
                } else {
                    (values[p / 4] / 16777216) as u8
                }
            },
    )
}

/// Rows that are not quantized hold the numbers that were written, by their bits; a
/// bfloat16 number is the upper half of the bits of a single-precision number.
pub proof fn law_plain_rows_undo_writing(values: Seq<nat>, n: nat, i: int)
    requires
        0 <= i < n <= values.len(),
        forall|k: int| 0 <= k < values.len() ==> #[trigger] values[k] <= u32::MAX,
    ensures
        elements_of(GgmlType::F32, numbers_bytes(values, 4), n)[i] == Element::Single(
            values[i] as u32,
        ),
        values[i] <= u16::MAX ==> elements_of(
            GgmlType::F16,
            numbers_bytes(values, 2),
            n,
        )[i] == Element::Half(values[i] as u16),
        values[i] <= u16::MAX ==> elements_of(
            GgmlType::BF16,
            numbers_bytes(values, 2),
            n,
        )[i] == Element::Single((values[i] * 65536) as u32),
{
    reveal_with_fuel(number_at, 5);
    let single = numbers_bytes(values, 4);
    let half = numbers_bytes(values, 2);
    let v = values[i];
    assert(v <= u32::MAX);
    assert(number_at(single, 4 * i, 4) == v) by {
        assert(single[4 * i] == v % 256);
        assert(single[4 * i + 1] == v / 256 % 256);
        assert(single[4 * i + 2] == v / 65536 % 256);
        assert(single[4 * i + 3] == v / 16777216);
    }
    if v <= u16::MAX {
        assert(half[2 * i] == v % 256);
        assert(half[2 * i + 1] == v / 256);
        assert(number_at(half, 2 * i, 2) == v);
    }
}

} // verus!
