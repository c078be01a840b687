//! What the threads of a GPU workgroup compute: one workgroup for each row of a
//! matrix, 64 lanes in it, and each lane a share of the row's elements.
//!
//! The matrix is packed into words (see [`crate::ops::launch::pack_bytes_to_u32`]),
//! and the lanes read single bytes out of them.

use vstd::arithmetic::div_mod::{
    lemma_fundamental_div_mod, lemma_fundamental_div_mod_converse, lemma_mod_mod,
};
use vstd::prelude::*;

use crate::ops::backend_select::gpu_dequantizable;
use crate::ops::launch::{is_packed, law_packing_keeps_the_bytes, packed_word, row_words};
use crate::parser::number_at;
use crate::quant::block::{
    accumulated, block_count, blocks_of, half_at, lemma_accumulated_next, lemma_bit_ranges, lemma_half_shifts,
    quantized_elements, signed_of, takes_in, Element, Weight,
};
use crate::quant::q4_k::{packed_min, packed_scale};
use crate::quant::q8_0::{block_elements, block_part, block_quants};
use crate::quant::{elements_of, lemma_row_bytes, q4_k, q5_k, q6_k};
use crate::types::GgmlType;

verus! {

/// Lanes of a workgroup.
pub const LANES: usize = 64;

// ── Bytes in words ──────────────────────────────────────────────────────────

/// Byte `j` of a word, the lowest first.
pub open spec fn byte_of(word: u32, j: int) -> u8 {
    ((word >> ((8 * j) as u32)) & 0xFF) as u8
}

/// The bytes of words, one word after the other.
pub open spec fn unpacked(words: Seq<u32>) -> Seq<u8> {
    Seq::new(4 * words.len(), |o: int| byte_of(words[o / 4], o % 4))
}

/// Reads a byte from packed words.
pub fn read_byte(w: &[u32], offset: usize) -> (b: u8)
    requires
        offset < 4 * w@.len(),
    ensures
        b == unpacked(w@)[offset as int],
{
    let word: u32 = w[offset / 4];
    let shift: u32 = 8 * (offset % 4) as u32;
    ((word >> shift) & 0xFF) as u8
}

/// Reads a binary16 number, by its bits, from packed words.
fn read_packed_half(w: &[u32], offset: usize) -> (bits: u16)
    requires
        offset + 2 <= 4 * w@.len(),
        4 * w@.len() <= usize::MAX,
    ensures
        bits == half_at(unpacked(w@), offset as int),
{
    proof {
        reveal_with_fuel(number_at, 3);
    }
    read_byte(w, offset) as u16 + 0x100 * read_byte(w, offset + 1) as u16
}

/// Reads the scale and the minimum of a sub-block from packed words.
fn read_scale_min(w: &[u32], pos: usize, j: usize) -> (r: (u8, u8))
    requires
        j < 8,
        pos + 12 <= 4 * w@.len() <= usize::MAX,
    ensures
        r.0 == packed_scale(unpacked(w@), pos as int, j as int),
        r.1 == packed_min(unpacked(w@), pos as int, j as int),
{
    if j < 4 {
        (read_byte(w, pos + j) & 63, read_byte(w, pos + j + 4) & 63)
    } else {
        let a: u8 = read_byte(w, pos + j + 4);
        let b: u8 = read_byte(w, pos + j - 4);
        let c: u8 = read_byte(w, pos + j);
        proof {
            assert((a & 0xF) < 16 && (a >> 4) < 16 && (b >> 6) < 4 && (c >> 6) < 4) by (bit_vector);
        }
        ((a & 0xF) + 16 * (b >> 6), (a >> 4) + 16 * (c >> 6))
    }
}

fn read_q4_k(w: &[u32], base: usize, r: usize) -> (weight: Weight)
    requires
        r < 256,
        base + 144 <= 4 * w@.len() <= usize::MAX,
    ensures
        weight == q4_k::weight_at(unpacked(w@), base as int, r as int),
{
    let d: u16 = read_packed_half(w, base);
    let dmin: u16 = read_packed_half(w, base + 2);
    let (scale, min) = read_scale_min(w, base + 4, r / 32);
    let byte: u8 = read_byte(w, base + 16 + 32 * (r / 64) + r % 32);
    let quant: u8 = if r % 64 < 32 {
        byte & 0x0F
    } else {
        byte >> 4
    };
    Weight { d, dmin, scale: scale as i32, min: min as i32, quant: quant as i32 }
}

fn read_q5_k(w: &[u32], base: usize, r: usize) -> (weight: Weight)
    requires
        r < 256,
        base + 176 <= 4 * w@.len() <= usize::MAX,
    ensures
        weight == q5_k::weight_at(unpacked(w@), base as int, r as int),
{
    let d: u16 = read_packed_half(w, base);
    let dmin: u16 = read_packed_half(w, base + 2);
    let (scale, min) = read_scale_min(w, base + 4, r / 32);
    let byte: u8 = read_byte(w, base + 48 + 32 * (r / 64) + r % 32);
    let holder: u8 = read_byte(w, base + 16 + r % 32);
    let k: u8 = (r / 32) as u8;
    let low: u8 = if r % 64 < 32 {
        byte & 0x0F
    } else {
        byte >> 4
    };
    let high: u8 = (holder >> k) & 1;
    proof {
        lemma_bit_ranges(byte, 0);
        lemma_bit_ranges(holder, k);
    }
    Weight {
        d,
        dmin,
        scale: scale as i32,
        min: min as i32,
        quant: low as i32 + 16 * high as i32,
    }
}

fn read_q6_k(w: &[u32], base: usize, r: usize) -> (weight: Weight)
    requires
        r < 256,
        base + 210 <= 4 * w@.len() <= usize::MAX,
    ensures
        weight == q6_k::weight_at(unpacked(w@), base as int, r as int),
{
    let half: usize = r / 128;
    let quarter: usize = (r % 128) / 32;
    let l: usize = r % 32;
    let d: u16 = read_packed_half(w, base + 208);
    let scale: i32 = signed_of(read_byte(w, base + 192 + 8 * half + 2 * quarter + l / 16));
    let byte: u8 = read_byte(w, base + 64 * half + 32 * (quarter % 2) + l);
    let holder: u8 = read_byte(w, base + 128 + 32 * half + l);
    let k: u8 = 2 * quarter as u8;
    let low: u8 = if quarter < 2 {
        byte & 0x0F
    } else {
        byte >> 4
    };
    let high: u8 = (holder >> k) & 3;
    proof {
        lemma_bit_ranges(byte, 0);
        lemma_bit_ranges(holder, k);
    }
    Weight { d, dmin: 0, scale, min: 0, quant: low as i32 + 16 * high as i32 - 32 }
}

// ── Shares of a row ─────────────────────────────────────────────────────────

/// In what order a lane visits its elements.
#[derive(Debug, Clone, Copy, PartialEq, Eq, Structural)]
pub enum LaneOrder {
    /// Units of 32 elements: those of number `lane`, `lane + 64`, `lane + 128`, …
    Units,
    /// In every block of 256 the four elements, 32 apart, of one half: half
    /// `lane / 32`, from `lane % 32` on.
    Slots,
}

/// The element that a lane visits at step `p`.
pub open spec fn position(order: LaneOrder, lane: int, p: int) -> int {
    match order {
        LaneOrder::Units => 32 * (lane + 64 * (p / 32)) + p % 32,
        LaneOrder::Slots => 256 * (p / 4) + 128 * (lane / 32) + 32 * (p % 4) + lane % 32,
    }
}

/// How many of the first `steps` steps of a lane lead to one of `n` elements. The
/// elements that a lane visits go up, so these are its first steps.
pub open spec fn lane_count(order: LaneOrder, lane: int, n: int, steps: int) -> int
    decreases steps,
{
    if steps <= 0 {
        0
    } else if position(order, lane, steps - 1) < n {
        steps
    } else {
        lane_count(order, lane, n, steps - 1)
    }
}

/// The share of a lane in the elements of a row.
pub open spec fn lane_share<E>(order: LaneOrder, lane: int, row: Seq<E>) -> Seq<E> {
    Seq::new(
        lane_count(order, lane, row.len() as int, row.len() as int) as nat,
        |p: int| row[position(order, lane, p)],
    )
}

pub(crate) proof fn lemma_positions_go_up(order: LaneOrder, lane: int, p: int, q: int)
    requires
        0 <= lane < 64,
        0 <= p < q,
    ensures
        position(order, lane, p) < position(order, lane, q),
        p <= position(order, lane, p),
{
    match order {
        LaneOrder::Units => {
            lemma_fundamental_div_mod(p, 32);
            lemma_fundamental_div_mod(q, 32);
            assert(p / 32 == q / 32 || p / 32 + 1 <= q / 32);
        },
        LaneOrder::Slots => {
            lemma_fundamental_div_mod(p, 4);
            lemma_fundamental_div_mod(q, 4);
            assert(p / 4 == q / 4 || p / 4 + 1 <= q / 4);
            assert(0 <= lane / 32 && 0 <= lane % 32);
        },
    }
}

pub(crate) proof fn lemma_lane_count(order: LaneOrder, lane: int, n: int, steps: int)
    requires
        0 <= lane < 64,
        0 <= steps,
    ensures
        0 <= lane_count(order, lane, n, steps) <= steps,
        forall|p: int|
            0 <= p < lane_count(order, lane, n, steps) ==> #[trigger] position(order, lane, p) < n,
        forall|p: int|
            lane_count(order, lane, n, steps) <= p < steps ==> n <= #[trigger] position(
                order,
                lane,
                p,
            ),
    decreases steps,
{
    if steps > 0 {
        lemma_lane_count(order, lane, n, steps - 1);
        if position(order, lane, steps - 1) < n {
            assert forall|p: int| 0 <= p < steps implies #[trigger] position(order, lane, p) < n by {
                if p < steps - 1 {
                    lemma_positions_go_up(order, lane, p, steps - 1);
                }
            }
        }
    }
}

/// Steps that lead past the end of the row do not count.
proof fn lemma_lane_count_settles(order: LaneOrder, lane: int, n: int, a: int, b: int)
    requires
        0 <= lane < 64,
        0 <= a <= b,
        forall|p: int| a <= p < b ==> n <= #[trigger] position(order, lane, p),
    ensures
        lane_count(order, lane, n, b) == lane_count(order, lane, n, a),
    decreases b - a,
{
    if a < b {
        assert(n <= position(order, lane, b - 1));
        lemma_lane_count_settles(order, lane, n, a, b - 1);
    }
}

/// The whole share of a lane is visited in `steps` steps, where later ones lead
/// past the end.
proof fn lemma_share_is_complete(order: LaneOrder, lane: int, n: int, steps: int)
    requires
        0 <= lane < 64,
        0 <= steps,
        0 <= n,
        forall|p: int| steps <= p ==> n <= #[trigger] position(order, lane, p),
    ensures
        lane_count(order, lane, n, steps) == lane_count(order, lane, n, n),
{
    if steps <= n {
        lemma_lane_count_settles(order, lane, n, steps, n);
    } else {
        assert forall|p: int| n <= p < steps implies n <= #[trigger] position(order, lane, p) by {
            lemma_positions_go_up(order, lane, p, p + 1);
        }
        lemma_lane_count_settles(order, lane, n, n, steps);
    }
}

/// The lane that visits an element.
pub open spec fn lane_of(order: LaneOrder, i: int) -> int {
    match order {
        LaneOrder::Units => (i / 32) % 64,
        LaneOrder::Slots => 32 * ((i % 256) / 128) + i % 32,
    }
}

/// The step at which an element is visited.
pub open spec fn step_of(order: LaneOrder, i: int) -> int {
    match order {
        LaneOrder::Units => 32 * ((i / 32) / 64) + i % 32,
        LaneOrder::Slots => 4 * (i / 256) + (i % 128) / 32,
    }
}

pub(crate) proof fn lemma_position_of_step(order: LaneOrder, i: int)
    requires
        0 <= i,
    ensures
        0 <= lane_of(order, i) < 64,
        0 <= step_of(order, i),
        position(order, lane_of(order, i), step_of(order, i)) == i,
{
    match order {
        LaneOrder::Units => {
            let unit = i / 32;
            let p = step_of(order, i);
            lemma_fundamental_div_mod(i, 32);
            lemma_fundamental_div_mod(unit, 64);
            lemma_fundamental_div_mod_converse(p, 32, unit / 64, i % 32);
        },
        LaneOrder::Slots => {
            let block = i / 256;
            let half = (i % 256) / 128;
            let quarter = (i % 128) / 32;
            let l = i % 32;
            lemma_fundamental_div_mod(i, 256);
            lemma_fundamental_div_mod(i % 256, 128);
            lemma_fundamental_div_mod(i % 128, 32);
            lemma_mod_mod(i, 128, 2);
            lemma_mod_mod(i, 32, 4);
            assert(i == 256 * block + 128 * half + 32 * quarter + l);
            lemma_fundamental_div_mod_converse(4 * block + quarter, 4, block, quarter);
            lemma_fundamental_div_mod_converse(32 * half + l, 32, half, l);
        },
    }
}

proof fn lemma_step_of_unit(lane: int, p: int)
    requires
        0 <= lane < 64,
        0 <= p,
    ensures
        lane_of(LaneOrder::Units, position(LaneOrder::Units, lane, p)) == lane,
        step_of(LaneOrder::Units, position(LaneOrder::Units, lane, p)) == p,
{
    let i = position(LaneOrder::Units, lane, p);
    let unit = lane + 64 * (p / 32);
    lemma_fundamental_div_mod(p, 32);
    lemma_fundamental_div_mod_converse(i, 32, unit, p % 32);
    lemma_fundamental_div_mod_converse(unit, 64, p / 32, lane);
}

proof fn lemma_step_of_slot(lane: int, p: int)
    requires
        0 <= lane < 64,
        0 <= p,
    ensures
        lane_of(LaneOrder::Slots, position(LaneOrder::Slots, lane, p)) == lane,
        step_of(LaneOrder::Slots, position(LaneOrder::Slots, lane, p)) == p,
{
    let i = position(LaneOrder::Slots, lane, p);
    let half = lane / 32;
    let l = lane % 32;
    let quarter = p % 4;
    let block = p / 4;
    assert(0 <= half < 2 && 0 <= l < 32 && 0 <= quarter < 4);
    lemma_slot_parts(block, half, quarter, l);
}

proof fn lemma_slot_parts(block: int, half: int, quarter: int, l: int)
    requires
        0 <= half < 2,
        0 <= quarter < 4,
        0 <= l < 32,
    ensures
        ({
            let i = 256 * block + 128 * half + 32 * quarter + l;
            &&& i / 256 == block
            &&& (i % 256) / 128 == half
            &&& (i % 128) / 32 == quarter
            &&& i % 32 == l
        }),
{
    let i = 256 * block + 128 * half + 32 * quarter + l;
    lemma_fundamental_div_mod_converse(i, 256, block, 128 * half + 32 * quarter + l);
    lemma_fundamental_div_mod_converse(i, 128, 2 * block + half, 32 * quarter + l);
    lemma_fundamental_div_mod_converse(i, 32, 8 * block + 4 * half + quarter, l);
    lemma_fundamental_div_mod_converse(i % 256, 128, half, 32 * quarter + l);
    lemma_fundamental_div_mod_converse(i % 128, 32, quarter, l);
}

pub(crate) proof fn lemma_step_of_position(order: LaneOrder, lane: int, p: int)
    requires
        0 <= lane < 64,
        0 <= p,
    ensures
        lane_of(order, position(order, lane, p)) == lane,
        step_of(order, position(order, lane, p)) == p,
{
    match order {
        LaneOrder::Units => {
            lemma_step_of_unit(lane, p);
        },
        LaneOrder::Slots => {
            lemma_step_of_slot(lane, p);
        },
    }
}

/// Every element of a row is visited by exactly one lane, and by it once.
pub proof fn law_lanes_share_the_row(order: LaneOrder, n: int, i: int)
    requires
        0 <= i < n,
    ensures
        exists|lane: int, p: int|
            0 <= lane < 64 && 0 <= p < lane_count(order, lane, n, n) && #[trigger] position(
                order,
                lane,
                p,
            ) == i,
        forall|lane: int, p: int, other: int, q: int|
            0 <= lane < 64 && 0 <= p && 0 <= other < 64 && 0 <= q && #[trigger] position(
                order,
                lane,
                p,
            ) == i && #[trigger] position(order, other, q) == i ==> lane == other && p == q,
{
    let lane = lane_of(order, i);
    let p = step_of(order, i);
    lemma_position_of_step(order, i);
    lemma_positions_go_up(order, lane, p, p + 1);
    lemma_lane_count(order, lane, n, n);
    assert(0 <= p < lane_count(order, lane, n, n) && position(order, lane, p) == i);
    assert forall|a: int, s: int, b: int, t: int|
        0 <= a < 64 && 0 <= s && 0 <= b < 64 && 0 <= t && #[trigger] position(order, a, s) == i
            && #[trigger] position(order, b, t) == i implies a == b && s == t by {
        lemma_step_of_position(order, a, s);
        lemma_step_of_position(order, b, t);
    }
}

// ── Lanes of the K-quants ───────────────────────────────────────────────────

proof fn lemma_q4_k_shifts(data: Seq<u8>, start: int, base: int, r: int)
    requires
        0 <= start,
        0 <= base,
        0 <= r < 256,
        start + base + 144 <= data.len(),
    ensures
        q4_k::weight_at(data.skip(start), base, r) == q4_k::weight_at(data, start + base, r),
{
    lemma_half_shifts(data, start, base);
    lemma_half_shifts(data, start, base + 2);
}

proof fn lemma_q5_k_shifts(data: Seq<u8>, start: int, base: int, r: int)
    requires
        0 <= start,
        0 <= base,
        0 <= r < 256,
        start + base + 176 <= data.len(),
    ensures
        q5_k::weight_at(data.skip(start), base, r) == q5_k::weight_at(data, start + base, r),
{
    lemma_half_shifts(data, start, base);
    lemma_half_shifts(data, start, base + 2);
}

proof fn lemma_q6_k_shifts(data: Seq<u8>, start: int, base: int, r: int)
    requires
        0 <= start,
        0 <= base,
        0 <= r < 256,
        start + base + 210 <= data.len(),
    ensures
        q6_k::weight_at(data.skip(start), base, r) == q6_k::weight_at(data, start + base, r),
{
    lemma_half_shifts(data, start, base + 208);
}

/// One step of a lane: an element of the row is the next of the lane's share, and
/// what lies past the end of the row is not in it.
proof fn lemma_visit(order: LaneOrder, lane: int, n: int, p: int)
    requires
        0 <= lane < 64,
        0 <= p,
    ensures
        if position(order, lane, p) < n {
            &&& lane_count(order, lane, n, p) == p
            &&& lane_count(order, lane, n, p + 1) == p + 1
            &&& p < lane_count(order, lane, n, n)
        } else {
            lane_count(order, lane, n, p + 1) == lane_count(order, lane, n, p)
        },
{
    if position(order, lane, p) < n {
        lemma_lane_count(order, lane, n, p);
        let c = lane_count(order, lane, n, p);
        if c < p {
            lemma_positions_go_up(order, lane, c, p);
            assert(n <= position(order, lane, c));
        }
        lemma_positions_go_up(order, lane, p, p + 1);
        lemma_lane_count(order, lane, n, n);
    }
}

/// The row of a packed matrix, as bytes, and whatever follows it.
pub open spec fn packed_row(words: Seq<u32>, row: int, row_u32s: int) -> Seq<u8> {
    unpacked(words).skip(row * row_u32s * 4)
}

/// Whether a packed matrix holds `bytes` bytes from the beginning of a row on.
pub open spec fn holds_packed_row(words: Seq<u32>, row: int, row_u32s: int, bytes: nat) -> bool {
    &&& row * row_u32s * 4 + bytes <= 4 * words.len()
    &&& 4 * words.len() <= usize::MAX
}

/// The first `n` weights of a row of Q5_K (`five`) or Q4_K.
pub open spec fn unit_weights(five: bool, data: Seq<u8>, n: nat) -> Seq<Weight> {
    if five {
        q5_k::weights_of(data, n)
    } else {
        q4_k::weights_of(data, n)
    }
}

/// The bytes of a block of Q5_K (`five`) or Q4_K.
pub open spec fn unit_block_bytes(five: bool) -> nat {
    if five {
        176
    } else {
        144
    }
}

fn read_unit_weight(
    five: bool,
    w: &[u32],
    start: usize,
    block: usize,
    r: usize,
    Ghost(n): Ghost<nat>,
) -> (weight: Weight)
    requires
        r < 256,
        256 * block + r < n,
        start + unit_block_bytes(five) * (block + 1) <= 4 * w@.len() <= usize::MAX,
    ensures
        weight == unit_weights(five, unpacked(w@).skip(start as int), n)[256 * block + r],
{
    proof {
        let i = 256 * block + r;
        assert(i / 256 == block && i % 256 == r);
        if five {
            lemma_q5_k_shifts(unpacked(w@), start as int, 176 * block, r as int);
        } else {
            lemma_q4_k_shifts(unpacked(w@), start as int, 144 * block, r as int);
        }
    }
    if five {
        read_q5_k(w, start + 176 * block, r)
    } else {
        read_q4_k(w, start + 144 * block, r)
    }
}

proof fn lemma_unit_index(lane: int, j: int, l: int, u: int)
    requires
        0 <= lane < 64,
        0 <= j,
        0 <= l < 32,
        u == lane + 64 * j,
    ensures
        position(LaneOrder::Units, lane, 32 * j + l) == 32 * u + l,
        256 * (u / 8) + 32 * (u % 8) + l == 32 * u + l,
        0 <= 32 * (u % 8) + l < 256,
{
    assert((32 * j + l) / 32 == j && (32 * j + l) % 32 == l);
}

/// The share of a lane in the product of a row of Q4_K or Q5_K with `x`.
///
/// Each block of 256 elements has 8 sub-units of 32 elements each. The lane owns
/// the sub-units `lane`, `lane + 64`, `lane + 128`, … across all blocks.
#[verifier::spinoff_prover]
#[verifier::rlimit(40)]
fn partial_units<A: Copy, F: Fn(A, Element, A) -> A>(
    five: bool,
    w: &[u32],
    x: &[A],
    row: usize,
    lane: usize,
    in_dim: usize,
    row_u32s: usize,
    zero: A,
    take_in: &F,
) -> (total: A)
    requires
        lane < 64,
        in_dim <= x@.len(),
        256 * blocks_of(in_dim as nat, 256) <= usize::MAX,
        holds_packed_row(
            w@,
            row as int,
            row_u32s as int,
            unit_block_bytes(five) * blocks_of(in_dim as nat, 256),
        ),
        takes_in(*take_in),
    ensures
        accumulated(
            *take_in,
            zero,
            lane_share(
                LaneOrder::Units,
                lane as int,
                quantized_elements(
                    unit_weights(
                        five,
                        packed_row(w@, row as int, row_u32s as int),
                        in_dim as nat,
                    ),
                ),
            ),
            lane_share(LaneOrder::Units, lane as int, x@.take(in_dim as int)),
            total,
        ),
{
    let n_blocks: usize = block_count(in_dim, 256);
    let ghost order = LaneOrder::Units;
    let ghost n = in_dim as int;
    let ghost block_bytes = unit_block_bytes(five);
    proof {
        assert(0 <= row * row_u32s) by (nonlinear_arith);
    }
    let start: usize = row * row_u32s * 4;
    let n_units: usize = n_blocks * 8;
    let ghost weights = unit_weights(five, packed_row(w@, row as int, row_u32s as int), n as nat);
    let ghost values = lane_share(order, lane as int, quantized_elements(weights));
    let ghost inputs = lane_share(order, lane as int, x@.take(n));
    let mut acc: A = zero;
    let mut u: usize = lane;
    let ghost mut j: int = 0;
    proof {
        assert(values.take(0).len() == 0);
    }
    while u < n_units
        invariant
            lane < 64,
            n == in_dim,
            in_dim <= x@.len(),
            order == LaneOrder::Units,
            block_bytes == unit_block_bytes(five),
            n_blocks == blocks_of(in_dim as nat, 256),
            256 * n_blocks <= usize::MAX,
            n_units == 8 * n_blocks,
            start == row * row_u32s * 4,
            start + block_bytes * n_blocks <= 4 * w@.len() <= usize::MAX,
            weights == unit_weights(five, unpacked(w@).skip(start as int), n as nat),
            values == lane_share(order, lane as int, quantized_elements(weights)),
            inputs == lane_share(order, lane as int, x@.take(n)),
            takes_in(*take_in),
            0 <= j,
            u == lane + 64 * j,
            accumulated(
                *take_in,
                zero,
                values.take(lane_count(order, lane as int, n, 32 * j)),
                inputs.take(lane_count(order, lane as int, n, 32 * j)),
                acc,
            ),
        decreases n_units + 64 - u,
    {
        let block: usize = u / 8;
        let unit: usize = u % 8;
        let mut l: usize = 0;
        proof {
            assert(block_bytes * (block + 1) <= block_bytes * n_blocks) by (nonlinear_arith)
                requires
                    block + 1 <= n_blocks,
            ;
        }
        while l < 32
            invariant
                l <= 32,
                lane < 64,
                n == in_dim,
                in_dim <= x@.len(),
                order == LaneOrder::Units,
                block_bytes == unit_block_bytes(five),
                n_blocks == blocks_of(in_dim as nat, 256),
                256 * n_blocks <= usize::MAX,
                u < 8 * n_blocks,
                block == u / 8,
                unit == u % 8,
                start + block_bytes * (block + 1) <= 4 * w@.len() <= usize::MAX,
                weights == unit_weights(five, unpacked(w@).skip(start as int), n as nat),
                values == lane_share(order, lane as int, quantized_elements(weights)),
                inputs == lane_share(order, lane as int, x@.take(n)),
                takes_in(*take_in),
                0 <= j,
                u == lane + 64 * j,
                accumulated(
                    *take_in,
                    zero,
                    values.take(lane_count(order, lane as int, n, 32 * j + l)),
                    inputs.take(lane_count(order, lane as int, n, 32 * j + l)),
                    acc,
                ),
            decreases 32 - l,
        {
            let idx: usize = 256 * block + 32 * unit + l;
            let ghost p = 32 * j + l;
            proof {
                lemma_unit_index(lane as int, j, l as int, u as int);
                lemma_visit(order, lane as int, n, p);
            }
            if idx < in_dim {
                let weight = read_unit_weight(
                    five,
                    w,
                    start,
                    block,
                    32 * unit + l,
                    Ghost(n as nat),
                );
                let ghost before = acc;
                acc = take_in(acc, Element::Quantized(weight), x[idx]);
                proof {
                    assert(values[p] == Element::Quantized(weight));
                    assert(inputs[p] == x@[idx as int]);
                    lemma_accumulated_next(*take_in, zero, values, inputs, p, before, acc);
                }
            }
            l += 1;
        }
        u += 64;
        proof {
            j = j + 1;
        }
    }
    proof {
        assert forall|p: int| 32 * j <= p implies n <= #[trigger] position(
            order,
            lane as int,
            p,
        ) by {
            assert(j <= p / 32);
        }
        lemma_share_is_complete(order, lane as int, n, 32 * j);
        lemma_lane_count(order, lane as int, n, n);
        let c = lane_count(order, lane as int, n, n);
        assert(values.take(c) =~= values);
        assert(inputs.take(c) =~= inputs);
    }
    acc
}

/// The share of a lane in the product of a row of Q4_K with `x`.
pub fn partial_q4_k<A: Copy, F: Fn(A, Element, A) -> A>(
    w: &[u32],
    x: &[A],
    row: usize,
    lane: usize,
    in_dim: usize,
    row_u32s: usize,
    zero: A,
    take_in: &F,
) -> (total: A)
    requires
        lane < 64,
        in_dim <= x@.len(),
        256 * blocks_of(in_dim as nat, 256) <= usize::MAX,
        holds_packed_row(
            w@,
            row as int,
            row_u32s as int,
            144 * blocks_of(in_dim as nat, 256),
        ),
        takes_in(*take_in),
    ensures
        accumulated(
            *take_in,
            zero,
            lane_share(
                LaneOrder::Units,
                lane as int,
                quantized_elements(
                    q4_k::weights_of(packed_row(w@, row as int, row_u32s as int), in_dim as nat),
                ),
            ),
            lane_share(LaneOrder::Units, lane as int, x@.take(in_dim as int)),
            total,
        ),
{
    partial_units(false, w, x, row, lane, in_dim, row_u32s, zero, take_in)
}

/// The share of a lane in the product of a row of Q5_K with `x`.
pub fn partial_q5_k<A: Copy, F: Fn(A, Element, A) -> A>(
    w: &[u32],
    x: &[A],
    row: usize,
    lane: usize,
    in_dim: usize,
    row_u32s: usize,
    zero: A,
    take_in: &F,
) -> (total: A)
    requires
        lane < 64,
        in_dim <= x@.len(),
        256 * blocks_of(in_dim as nat, 256) <= usize::MAX,
        holds_packed_row(
            w@,
            row as int,
            row_u32s as int,
            176 * blocks_of(in_dim as nat, 256),
        ),
        takes_in(*take_in),
    ensures
        accumulated(
            *take_in,
            zero,
            lane_share(
                LaneOrder::Units,
                lane as int,
                quantized_elements(
                    q5_k::weights_of(packed_row(w@, row as int, row_u32s as int), in_dim as nat),
                ),
            ),
            lane_share(LaneOrder::Units, lane as int, x@.take(in_dim as int)),
            total,
        ),
{
    partial_units(true, w, x, row, lane, in_dim, row_u32s, zero, take_in)
}

fn read_slot_weight(
    w: &[u32],
    start: usize,
    block: usize,
    r: usize,
    Ghost(n): Ghost<nat>,
) -> (weight: Weight)
    requires
        r < 256,
        256 * block + r < n,
        start + 210 * (block + 1) <= 4 * w@.len() <= usize::MAX,
    ensures
        weight == q6_k::weights_of(unpacked(w@).skip(start as int), n)[256 * block + r],
{
    proof {
        lemma_fundamental_div_mod_converse(256 * block + r, 256, block as int, r as int);
        lemma_q6_k_shifts(unpacked(w@), start as int, 210 * block, r as int);
    }
    read_q6_k(w, start + 210 * block, r)
}

proof fn lemma_slot_index(lane: int, block: int, k: int)
    requires
        0 <= lane < 64,
        0 <= block,
        0 <= k < 4,
    ensures
        position(LaneOrder::Slots, lane, 4 * block + k) == 256 * block + 128 * (lane / 32) + 32 * k
            + lane % 32,
        0 <= 128 * (lane / 32) + 32 * k + lane % 32 < 256,
{
    lemma_fundamental_div_mod_converse(4 * block + k, 4, block, k);
}

/// The share of a lane in the product of a row of Q6_K with `x`.
///
/// The lane owns a fixed slot — half `lane / 32`, place `lane % 32` — and goes
/// through all blocks. Each slot has 4 elements in a block, 32 apart.
#[verifier::spinoff_prover]
#[verifier::rlimit(40)]
pub fn partial_q6_k<A: Copy, F: Fn(A, Element, A) -> A>(
    w: &[u32],
    x: &[A],
    row: usize,
    lane: usize,
    in_dim: usize,
    row_u32s: usize,
    zero: A,
    take_in: &F,
) -> (total: A)
    requires
        lane < 64,
        in_dim <= x@.len(),
        256 * blocks_of(in_dim as nat, 256) <= usize::MAX,
        holds_packed_row(
            w@,
            row as int,
            row_u32s as int,
            210 * blocks_of(in_dim as nat, 256),
        ),
        takes_in(*take_in),
    ensures
        accumulated(
            *take_in,
            zero,
            lane_share(
                LaneOrder::Slots,
                lane as int,
                quantized_elements(
                    q6_k::weights_of(packed_row(w@, row as int, row_u32s as int), in_dim as nat),
                ),
            ),
            lane_share(LaneOrder::Slots, lane as int, x@.take(in_dim as int)),
            total,
        ),
{
    let n_blocks: usize = block_count(in_dim, 256);
    let ghost order = LaneOrder::Slots;
    let ghost n = in_dim as int;
    proof {
        assert(0 <= row * row_u32s) by (nonlinear_arith);
    }
    let start: usize = row * row_u32s * 4;
    let half: usize = lane / 32;
    let place: usize = lane % 32;
    let ghost weights = q6_k::weights_of(unpacked(w@).skip(start as int), n as nat);
    let ghost values = lane_share(order, lane as int, quantized_elements(weights));
    let ghost inputs = lane_share(order, lane as int, x@.take(n));
    let mut acc: A = zero;
    let mut block: usize = 0;
    proof {
        assert(values.take(0).len() == 0);
    }
    while block < n_blocks
        invariant
            block <= n_blocks,
            lane < 64,
            half == lane / 32,
            place == lane % 32,
            n == in_dim,
            in_dim <= x@.len(),
            order == LaneOrder::Slots,
            n_blocks == blocks_of(in_dim as nat, 256),
            256 * n_blocks <= usize::MAX,
            start + 210 * n_blocks <= 4 * w@.len() <= usize::MAX,
            weights == q6_k::weights_of(unpacked(w@).skip(start as int), n as nat),
            values == lane_share(order, lane as int, quantized_elements(weights)),
            inputs == lane_share(order, lane as int, x@.take(n)),
            takes_in(*take_in),
            accumulated(
                *take_in,
                zero,
                values.take(lane_count(order, lane as int, n, 4 * block)),
                inputs.take(lane_count(order, lane as int, n, 4 * block)),
                acc,
            ),
        decreases n_blocks - block,
    {
        let mut k: usize = 0;
        while k < 4
            invariant
                k <= 4,
                lane < 64,
                half == lane / 32,
                place == lane % 32,
                n == in_dim,
                in_dim <= x@.len(),
                order == LaneOrder::Slots,
                block < n_blocks,
                256 * n_blocks <= usize::MAX,
                start + 210 * n_blocks <= 4 * w@.len() <= usize::MAX,
                weights == q6_k::weights_of(unpacked(w@).skip(start as int), n as nat),
                values == lane_share(order, lane as int, quantized_elements(weights)),
                inputs == lane_share(order, lane as int, x@.take(n)),
                takes_in(*take_in),
                accumulated(
                    *take_in,
                    zero,
                    values.take(lane_count(order, lane as int, n, 4 * block + k)),
                    inputs.take(lane_count(order, lane as int, n, 4 * block + k)),
                    acc,
                ),
            decreases 4 - k,
        {
            let r: usize = 128 * half + 32 * k + place;
            let idx: usize = 256 * block + r;
            let ghost p = 4 * block + k;
            proof {
                lemma_slot_index(lane as int, block as int, k as int);
                lemma_visit(order, lane as int, n, p);
            }
            if idx < in_dim {
                let weight = read_slot_weight(w, start, block, r, Ghost(n as nat));
                let ghost before = acc;
                acc = take_in(acc, Element::Quantized(weight), x[idx]);
                proof {
                    assert(values[p] == Element::Quantized(weight));
                    assert(inputs[p] == x@[idx as int]);
                    lemma_accumulated_next(*take_in, zero, values, inputs, p, before, acc);
                }
            }
            k += 1;
        }
        block += 1;
    }
    proof {
        assert forall|p: int| 4 * n_blocks <= p implies n <= #[trigger] position(
            order,
            lane as int,
            p,
        ) by {
            assert(n_blocks <= p / 4);
        }
        lemma_share_is_complete(order, lane as int, n, 4 * n_blocks);
        lemma_lane_count(order, lane as int, n, n);
        let c = lane_count(order, lane as int, n, n);
        assert(values.take(c) =~= values);
        assert(inputs.take(c) =~= inputs);
    }
    acc
}

// ── Lanes of Q8_0 ───────────────────────────────────────────────────────────

/// How many of `n_blocks` blocks a lane owns: those of number `lane`, `lane + 64`,
/// `lane + 128`, …
pub open spec fn lane_blocks(lane: int, n_blocks: int) -> int {
    if lane < n_blocks {
        (n_blocks - lane + 63) / 64
    } else {
        0
    }
}

/// The scales of the blocks that a lane owns.
pub open spec fn lane_deltas(data: Seq<u8>, lane: int, n: nat) -> Seq<u16> {
    Seq::new(
        lane_blocks(lane, blocks_of(n, 32) as int) as nat,
        |j: int| half_at(data, 34 * (lane + 64 * j)),
    )
}

/// Whether `sums` holds, for each block that a lane owns, what comes from `zero` by
/// taking in the block's quantized values with the elements of `x` that they meet.
pub open spec fn are_lane_sums<A, W: Fn(A, i32, A) -> A>(
    data: Seq<u8>,
    lane: int,
    x: Seq<A>,
    zero: A,
    within: W,
    sums: Seq<A>,
) -> bool {
    forall|j: int|
        0 <= j < sums.len() ==> accumulated(
            within,
            zero,
            block_quants(data, x.len(), lane + 64 * j),
            block_part(x, lane + 64 * j),
            #[trigger] sums[j],
        )
}

/// Whether `total` is the share of a lane in the product of a row of Q8_0 with `x`:
/// the sum within each of its blocks, then the blocks, each with its scale.
pub open spec fn is_lane_dot<A, W: Fn(A, i32, A) -> A, S: Fn(A, u16, A) -> A>(
    data: Seq<u8>,
    lane: int,
    x: Seq<A>,
    zero: A,
    within: W,
    scaled: S,
    total: A,
) -> bool {
    exists|sums: Seq<A>|
        {
            &&& sums.len() == lane_blocks(lane, blocks_of(x.len(), 32) as int)
            &&& are_lane_sums(data, lane, x, zero, within, sums)
            &&& #[trigger] accumulated(scaled, zero, lane_deltas(data, lane, x.len()), sums, total)
        }
}

proof fn lemma_lane_blocks(lane: int, n_blocks: int, j: int)
    requires
        0 <= lane < 64,
        0 <= j,
    ensures
        lane + 64 * j < n_blocks <==> j < lane_blocks(lane, n_blocks),
        0 <= lane_blocks(lane, n_blocks),
{
}

/// The sum within one block of a row of Q8_0.
fn block_sum<A: Copy, W: Fn(A, i32, A) -> A>(
    w: &[u32],
    start: usize,
    b: usize,
    x: &[A],
    zero: A,
    within: &W,
) -> (sum: A)
    requires
        32 * b < x@.len(),
        32 * b + 32 <= usize::MAX,
        start + 34 * (b + 1) <= 4 * w@.len() <= usize::MAX,
        takes_in(*within),
    ensures
        accumulated(
            *within,
            zero,
            block_quants(unpacked(w@).skip(start as int), x@.len(), b as int),
            block_part(x@, b as int),
            sum,
        ),
{
    let n: usize = x.len();
    let first: usize = 32 * b;
    let ghost data = unpacked(w@).skip(start as int);
    let ghost quants = block_quants(data, n as nat, b as int);
    let ghost part = block_part(x@, b as int);
    let count: usize = if n - first < 32 {
        n - first
    } else {
        32
    };
    let mut sum: A = zero;
    let mut i: usize = 0;
    proof {
        assert(quants.take(0).len() == 0);
    }
    while i < count
        invariant
            i <= count,
            count <= 32,
            count == block_elements(n as nat, b as int),
            n == x@.len(),
            first == 32 * b,
            first + count <= n,
            start + 34 * (b + 1) <= 4 * w@.len() <= usize::MAX,
            takes_in(*within),
            data == unpacked(w@).skip(start as int),
            quants == block_quants(data, n as nat, b as int),
            part == block_part(x@, b as int),
            accumulated(*within, zero, quants.take(i as int), part.take(i as int), sum),
        decreases count - i,
    {
        let q: i32 = signed_of(read_byte(w, start + 34 * b + 2 + i));
        let ghost before = sum;
        sum = within(sum, q, x[first + i]);
        proof {
            assert((32 * b + i) / 32 == b && (32 * b + i) % 32 == i);
            assert(quants[i as int] == q);
            assert(part[i as int] == x@[first + i]);
            lemma_accumulated_next(*within, zero, quants, part, i as int, before, sum);
        }
        i += 1;
    }
    proof {
        assert(quants.take(count as int) =~= quants);
        assert(part.take(count as int) =~= part);
    }
    sum
}

/// The share of a lane in the product of a row of Q8_0 with `x`.
#[verifier::spinoff_prover]
#[verifier::rlimit(40)]
pub fn partial_q8_0<A: Copy, W: Fn(A, i32, A) -> A, S: Fn(A, u16, A) -> A>(
    w: &[u32],
    x: &[A],
    row: usize,
    lane: usize,
    row_u32s: usize,
    zero: A,
    within: &W,
    scaled: &S,
) -> (total: A)
    requires
        lane < 64,
        32 * blocks_of(x@.len(), 32) + 64 <= usize::MAX,
        holds_packed_row(w@, row as int, row_u32s as int, 34 * blocks_of(x@.len(), 32)),
        takes_in(*within),
        takes_in(*scaled),
    ensures
        is_lane_dot(
            packed_row(w@, row as int, row_u32s as int),
            lane as int,
            x@,
            zero,
            *within,
            *scaled,
            total,
        ),
{
    let in_dim: usize = x.len();
    let n_blocks: usize = block_count(in_dim, 32);
    proof {
        assert(0 <= row * row_u32s) by (nonlinear_arith);
    }
    let start: usize = row * row_u32s * 4;
    let ghost data = unpacked(w@).skip(start as int);
    let ghost ds = lane_deltas(data, lane as int, x@.len());
    let ghost mut sums: Seq<A> = Seq::empty();
    let mut acc: A = zero;
    let mut b: usize = lane;
    let ghost mut j: int = 0;
    proof {
        assert(ds.take(0).len() == 0);
    }
    while b < n_blocks
        invariant
            lane < 64,
            in_dim == x@.len(),
            n_blocks == blocks_of(in_dim as nat, 32),
            32 * n_blocks + 64 <= usize::MAX,
            start + 34 * n_blocks <= 4 * w@.len() <= usize::MAX,
            data == unpacked(w@).skip(start as int),
            ds == lane_deltas(data, lane as int, x@.len()),
            takes_in(*within),
            takes_in(*scaled),
            0 <= j,
            b == lane + 64 * j,
            j <= ds.len(),
            sums.len() == j,
            are_lane_sums(data, lane as int, x@, zero, *within, sums),
            accumulated(*scaled, zero, ds.take(j), sums, acc),
        decreases n_blocks + 64 - b,
    {
        let d: u16 = read_packed_half(w, start + 34 * b);
        let sum = block_sum(w, start, b, x, zero, within);
        let ghost before = acc;
        acc = scaled(acc, d, sum);
        proof {
            lemma_lane_blocks(lane as int, n_blocks as int, j);
            lemma_half_shifts(unpacked(w@), start as int, 34 * b);
            let grown = sums.push(sum);
            assert(grown.take(j) =~= sums);
            assert(grown.take(j + 1) =~= grown);
            assert(ds[j] == d);
            lemma_accumulated_next(*scaled, zero, ds, grown, j, before, acc);
            assert(are_lane_sums(data, lane as int, x@, zero, *within, grown)) by {
                assert forall|c: int| 0 <= c < grown.len() implies accumulated(
                    *within,
                    zero,
                    block_quants(data, x@.len(), lane + 64 * c),
                    block_part(x@, lane + 64 * c),
                    #[trigger] grown[c],
                ) by {
                    if c < j {
                        assert(grown[c] == sums[c]);
                    }
                }
            }
            sums = grown;
            j = j + 1;
        }
        b += 64;
    }
    proof {
        lemma_lane_blocks(lane as int, n_blocks as int, j);
        assert(ds.take(j) =~= ds);
    }
    acc
}

// ── The workgroup ───────────────────────────────────────────────────────────

/// Whether `r` comes from `parts` by adding up halves: the second half of the parts
/// is added to the first one, part by part, until one is left.
pub open spec fn reduced<A, P: Fn(A, A) -> A>(parts: Seq<A>, plus: P, r: A) -> bool
    decreases parts.len(),
{
    if parts.len() <= 1 {
        parts.len() == 1 && r == parts[0]
    } else {
        exists|half: Seq<A>|
            {
                &&& half.len() == parts.len() / 2
                &&& #[trigger] halved(parts, plus, half)
                &&& reduced(half, plus, r)
            }
    }
}

/// Whether each part of `half` is the sum of two parts, one of each half.
pub open spec fn halved<A, P: Fn(A, A) -> A>(parts: Seq<A>, plus: P, half: Seq<A>) -> bool {
    forall|i: int|
        0 <= i < half.len() ==> plus.ensures(
            (parts[i], parts[i + half.len()]),
            #[trigger] half[i],
        )
}

fn reduce<A: Copy, P: Fn(A, A) -> A>(parts: Vec<A>, plus: &P) -> (r: A)
    requires
        parts@.len() == 64,
        forall|a: A, b: A| #[trigger] plus.requires((a, b)),
    ensures
        reduced(parts@, *plus, r),
{
    let ghost first = parts@;
    let mut current: Vec<A> = parts;
    let mut width: usize = 64;
    while width > 1
        invariant
            width == current@.len(),
            width == 64 || width == 32 || width == 16 || width == 8 || width == 4 || width == 2
                || width == 1,
            forall|a: A, b: A| #[trigger] plus.requires((a, b)),
            forall|r: A| #[trigger] reduced(current@, *plus, r) ==> reduced(first, *plus, r),
        decreases width,
    {
        let half_width: usize = width / 2;
        let mut half: Vec<A> = Vec::new();
        let mut i: usize = 0;
        while i < half_width
            invariant
                i <= half_width,
                2 * half_width == width,
                width == current@.len(),
                half@.len() == i,
                forall|a: A, b: A| #[trigger] plus.requires((a, b)),
                forall|k: int|
                    0 <= k < i ==> plus.ensures(
                        (current@[k], current@[k + half_width]),
                        #[trigger] half@[k],
                    ),
            decreases half_width - i,
        {
            let sum = plus(current[i], current[i + half_width]);
            half.push(sum);
            i += 1;
        }
        proof {
            assert(halved(current@, *plus, half@)) by {
                assert forall|k: int| 0 <= k < half@.len() implies plus.ensures(
                    (current@[k], current@[k + half@.len()]),
                    #[trigger] half@[k],
                ) by {
                    assert(k + half@.len() == k + half_width);
                }
            }
            assert(half@.len() == current@.len() / 2);
            assert forall|r: A| #[trigger] reduced(half@, *plus, r) implies reduced(
                first,
                *plus,
                r,
            ) by {
                assert(reduced(current@, *plus, r));
            }
        }
        current = half;
        width = half_width;
    }
    proof {
        assert(reduced(current@, *plus, current@[0]));
    }
    current[0]
}

/// The numbers by which the kernel tells the formats apart: the ids of their types.
pub const DEQUANT_Q8_0: u32 = 8;

pub const DEQUANT_Q4_K: u32 = 12;

pub const DEQUANT_Q5_K: u32 = 13;

pub const DEQUANT_Q6_K: u32 = 14;

/// The bytes of a row of `n` elements in a format, and none in one that the kernel
/// does not have.
pub open spec fn kernel_row_bytes(dtype: u32, n: nat) -> nat {
    if dtype == DEQUANT_Q8_0 {
        34 * blocks_of(n, 32)
    } else if dtype == DEQUANT_Q4_K {
        144 * blocks_of(n, 256)
    } else if dtype == DEQUANT_Q5_K {
        176 * blocks_of(n, 256)
    } else if dtype == DEQUANT_Q6_K {
        210 * blocks_of(n, 256)
    } else {
        0
    }
}

/// Whether `v` is the share of a lane in the product of a row with `x`. In a format
/// that the kernel does not have, every share is `zero`.
pub open spec fn is_partial<
    A,
    W: Fn(A, i32, A) -> A,
    S: Fn(A, u16, A) -> A,
    F: Fn(A, Element, A) -> A,
>(
    dtype: u32,
    data: Seq<u8>,
    lane: int,
    x: Seq<A>,
    zero: A,
    within: W,
    scaled: S,
    take_in: F,
    v: A,
) -> bool {
    if dtype == DEQUANT_Q8_0 {
        is_lane_dot(data, lane, x, zero, within, scaled, v)
    } else if dtype == DEQUANT_Q4_K {
        accumulated(
            take_in,
            zero,
            lane_share(
                LaneOrder::Units,
                lane,
                quantized_elements(q4_k::weights_of(data, x.len())),
            ),
            lane_share(LaneOrder::Units, lane, x),
            v,
        )
    } else if dtype == DEQUANT_Q5_K {
        accumulated(
            take_in,
            zero,
            lane_share(
                LaneOrder::Units,
                lane,
                quantized_elements(q5_k::weights_of(data, x.len())),
            ),
            lane_share(LaneOrder::Units, lane, x),
            v,
        )
    } else if dtype == DEQUANT_Q6_K {
        accumulated(
            take_in,
            zero,
            lane_share(
                LaneOrder::Slots,
                lane,
                quantized_elements(q6_k::weights_of(data, x.len())),
            ),
            lane_share(LaneOrder::Slots, lane, x),
            v,
        )
    } else {
        v == zero
    }
}

/// Whether `v` is the product of a row with `x` as a workgroup computes it: the
/// shares of its lanes, added up in halves.
pub open spec fn is_workgroup_product<
    A,
    W: Fn(A, i32, A) -> A,
    S: Fn(A, u16, A) -> A,
    F: Fn(A, Element, A) -> A,
    P: Fn(A, A) -> A,
>(
    dtype: u32,
    data: Seq<u8>,
    x: Seq<A>,
    zero: A,
    within: W,
    scaled: S,
    take_in: F,
    plus: P,
    v: A,
) -> bool {
    exists|parts: Seq<A>|
        {
            &&& parts.len() == 64
            &&& forall|lane: int|
                0 <= lane < 64 ==> is_partial(
                    dtype,
                    data,
                    lane,
                    x,
                    zero,
                    within,
                    scaled,
                    take_in,
                    #[trigger] parts[lane],
                )
            &&& #[trigger] reduced(parts, plus, v)
        }
}

/// Fused dequant + matmul of one workgroup: it computes the row
/// `cube_y * grid_x + cube_x`, where there is one.
pub fn matmul_dequant_wgpu<
    A: Copy,
    W: Fn(A, i32, A) -> A,
    S: Fn(A, u16, A) -> A,
    F: Fn(A, Element, A) -> A,
    P: Fn(A, A) -> A,
>(
    w: &[u32],
    x: &[A],
    out: &mut Vec<A>,
    dtype: u32,
    row_u32s: usize,
    grid_x: u32,
    cube_x: u32,
    cube_y: u32,
    zero: A,
    within: &W,
    scaled: &S,
    take_in: &F,
    plus: &P,
)
    requires
        cube_y * grid_x + cube_x <= u32::MAX,
        256 * blocks_of(x@.len(), 256) <= usize::MAX,
        32 * blocks_of(x@.len(), 32) + 64 <= usize::MAX,
        cube_y * grid_x + cube_x < old(out)@.len() ==> holds_packed_row(
            w@,
            cube_y * grid_x + cube_x,
            row_u32s as int,
            kernel_row_bytes(dtype, x@.len()),
        ),
        takes_in(*within),
        takes_in(*scaled),
        takes_in(*take_in),
        forall|a: A, b: A| #[trigger] plus.requires((a, b)),
    ensures
        final(out)@.len() == old(out)@.len(),
        ({
            let row = cube_y * grid_x + cube_x;
            &&& forall|i: int|
                0 <= i < old(out)@.len() && i != row ==> #[trigger] final(out)@[i] == old(out)@[i]
            &&& row < old(out)@.len() ==> is_workgroup_product(
                dtype,
                packed_row(w@, row, row_u32s as int),
                x@,
                zero,
                *within,
                *scaled,
                *take_in,
                *plus,
                final(out)@[row],
            )
        }),
{
    proof {
        assert(0 <= cube_y * grid_x) by (nonlinear_arith);
    }
    let row: usize = (cube_y * grid_x + cube_x) as usize;
    if row >= out.len() {
        return;
    }
    let n: usize = x.len();
    let ghost data = packed_row(w@, row as int, row_u32s as int);
    let mut parts: Vec<A> = Vec::new();
    let mut lane: usize = 0;
    proof {
        assert(x@.take(n as int) =~= x@);
    }
    while lane < LANES
        invariant
            lane <= LANES,
            n == x@.len(),
            x@.take(n as int) == x@,
            256 * blocks_of(x@.len(), 256) <= usize::MAX,
            32 * blocks_of(x@.len(), 32) + 64 <= usize::MAX,
            holds_packed_row(
                w@,
                row as int,
                row_u32s as int,
                kernel_row_bytes(dtype, x@.len()),
            ),
            takes_in(*within),
            takes_in(*scaled),
            takes_in(*take_in),
            data == packed_row(w@, row as int, row_u32s as int),
            parts@.len() == lane,
            forall|l: int|
                0 <= l < lane ==> is_partial(
                    dtype,
                    data,
                    l,
                    x@,
                    zero,
                    *within,
                    *scaled,
                    *take_in,
                    #[trigger] parts@[l],
                ),
        decreases LANES - lane,
    {
        let partial = if dtype == DEQUANT_Q8_0 {
            partial_q8_0(w, x, row, lane, row_u32s, zero, within, scaled)
        } else if dtype == DEQUANT_Q4_K {
            partial_q4_k(w, x, row, lane, n, row_u32s, zero, take_in)
        } else if dtype == DEQUANT_Q5_K {
            partial_q5_k(w, x, row, lane, n, row_u32s, zero, take_in)
        } else if dtype == DEQUANT_Q6_K {
            partial_q6_k(w, x, row, lane, n, row_u32s, zero, take_in)
        } else {
            zero
        };
        parts.push(partial);
        lane += 1;
    }
    let ghost shares = parts@;
    let v = reduce(parts, plus);
    proof {
        assert(reduced(shares, *plus, v));
    }
    out.set(row, v);
}

// ── Packing ─────────────────────────────────────────────────────────────────

proof fn lemma_byte_of(word: u32, j: int)
    requires
        0 <= j < 4,
    ensures
        byte_of(word, j) == (word as int / if j == 0 {
            1
        } else if j == 1 {
            256
        } else if j == 2 {
            65536
        } else {
            16777216
        }) % 256,
{
    assert(((word >> 0) & 0xFF) as u8 == word % 256) by (bit_vector);
    assert(((word >> 8) & 0xFF) as u8 == (word / 256) % 256) by (bit_vector);
    assert(((word >> 16) & 0xFF) as u8 == (word / 65536) % 256) by (bit_vector);
    assert(((word >> 24) & 0xFF) as u8 == (word / 16777216) % 256) by (bit_vector);
}

/// What a lane reads at byte `o` of a row is byte `o` of that row of the matrix.
pub proof fn law_packed_row_is_the_row(
    packed: Seq<u32>,
    w: Seq<u8>,
    row_bytes: int,
    out_dim: int,
    words: int,
    row: int,
    o: int,
)
    requires
        is_packed(packed, w, row_bytes, out_dim, words),
        row_words(row_bytes as nat) <= words,
        0 <= row < out_dim,
        0 <= o < row_bytes,
        out_dim * row_bytes <= w.len(),
    ensures
        packed_row(packed, row, words)[o] == w[row * row_bytes + o],
{
    let i = o / 4;
    let j = o % 4;
    assert(0 <= i < words);
    assert(0 <= row * words && row * words + words <= out_dim * words) by (nonlinear_arith)
        requires
            0 <= row,
            row + 1 <= out_dim,
            0 <= words,
    ;
    assert((row + 1) * row_bytes <= out_dim * row_bytes) by (nonlinear_arith)
        requires
            row + 1 <= out_dim,
            0 <= row_bytes,
    ;
    let at = row * words * 4 + o;
    assert(at == 4 * (row * words + i) + j);
    lemma_fundamental_div_mod_converse(at, 4, row * words + i, j);
    assert(packed[row * words + i] == packed_word(w, row_bytes, row, i));
    law_packing_keeps_the_bytes(w, row_bytes, row, i, j);
    lemma_byte_of(packed_word(w, row_bytes, row, i), j);
    assert(packed_row(packed, row, words)[o] == unpacked(packed)[at]);
}

proof fn lemma_half_agrees(a: Seq<u8>, b: Seq<u8>, m: int, pos: int)
    requires
        0 <= pos,
        pos + 2 <= m,
        forall|o: int| 0 <= o < m ==> #[trigger] a[o] == b[o],
    ensures
        half_at(a, pos) == half_at(b, pos),
{
    reveal_with_fuel(number_at, 3);
}

/// What the lanes decode are the weights of the row: packing changes none of them.
pub proof fn law_lanes_decode_the_row(
    dtype: GgmlType,
    packed: Seq<u32>,
    w: Seq<u8>,
    n: nat,
    out_dim: int,
    words: int,
    row: int,
)
    requires
        gpu_dequantizable(dtype),
        is_packed(packed, w, dtype.spec_type_size(n) as int, out_dim, words),
        row_words(dtype.spec_type_size(n)) <= words,
        0 <= row < out_dim,
        out_dim * dtype.spec_type_size(n) <= w.len(),
    ensures
        ({
            let row_bytes = dtype.spec_type_size(n) as int;
            elements_of(dtype, packed_row(packed, row, words), n) == elements_of(
                dtype,
                w.skip(row * row_bytes),
                n,
            )
        }),
{
    let row_bytes = dtype.spec_type_size(n) as int;
    let a = packed_row(packed, row, words);
    assert(0 <= row * row_bytes && row * row_bytes + row_bytes <= out_dim * row_bytes)
        by (nonlinear_arith)
        requires
            0 <= row,
            row + 1 <= out_dim,
            0 <= row_bytes,
    ;
    let b = w.skip(row * row_bytes);
    assert forall|o: int| 0 <= o < row_bytes implies #[trigger] a[o] == b[o] by {
        law_packed_row_is_the_row(packed, w, row_bytes, out_dim, words, row, o);
    }
    lemma_row_bytes(dtype, n);
    let va = elements_of(dtype, a, n);
    let vb = elements_of(dtype, b, n);
    assert(va.len() == n && vb.len() == n);
    assert forall|i: int| 0 <= i < n implies va[i] == vb[i] by {
        match dtype {
            GgmlType::Q8_0 => {
                let block = i / 32;
                assert(block < blocks_of(n, 32));
                lemma_half_agrees(a, b, row_bytes, 34 * block);
            },
            GgmlType::Q4_K => {
                let block = i / 256;
                assert(block < blocks_of(n, 256));
                lemma_half_agrees(a, b, row_bytes, 144 * block);
                lemma_half_agrees(a, b, row_bytes, 144 * block + 2);
                assert(q4_k::weight(a, i) == q4_k::weight(b, i));
            },
            GgmlType::Q5_K => {
                let block = i / 256;
                assert(block < blocks_of(n, 256));
                lemma_half_agrees(a, b, row_bytes, 176 * block);
                lemma_half_agrees(a, b, row_bytes, 176 * block + 2);
                assert(q5_k::weight(a, i) == q5_k::weight(b, i));
            },
            _ => {
                let block = i / 256;
                assert(block < blocks_of(n, 256));
                lemma_half_agrees(a, b, row_bytes, 210 * block + 208);
                assert(q6_k::weight(a, i) == q6_k::weight(b, i));
            },
        }
    }
    assert(va =~= vb);
}

/// A kernel takes the rows of a format to be as long as they are in a file.
pub proof fn law_kernels_know_the_length_of_rows(t: GgmlType, n: nat)
    ensures
        t == GgmlType::Q8_0 || t == GgmlType::Q4_K || t == GgmlType::Q5_K || t == GgmlType::Q6_K
            ==> kernel_row_bytes(t.spec_id(), n) == t.spec_type_size(n),
{
    assert(34 * blocks_of(n, 32) == blocks_of(n, 32) * 34);
}

} // verus!
